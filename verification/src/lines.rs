//! Spreading intervals over the lines that they touch.

use std::collections::BTreeMap;
use defaultmap::DefaultBTreeMap;
use vstd::prelude::*;
use crate::codecov::{CodeCovLineCoverage, CodeCovLineHit};
use crate::region::Region;

verus! {

/// `DefaultBTreeMap` of the defaultmap crate: a `BTreeMap` that makes an
/// entry from a default value when one is asked for that it does not have.
/// Nothing inside it is visible here.
#[verifier::external_type_specification]
#[verifier::external_body]
#[verifier::reject_recursive_types(K)]
#[verifier::reject_recursive_types(V)]
pub struct ExDefaultBTreeMap<K: Eq + Ord, V>(DefaultBTreeMap<K, V>);

/// The hits that `map` holds, by line. A line that was never asked for has
/// no entry.
pub uninterp spec fn recorded(map: DefaultBTreeMap<usize, CodeCovLineCoverage>) -> Map<usize, Seq<CodeCovLineHit>>;

/// The hits of the value that `map` makes for a line without an entry: those
/// of the default that it was made with.
pub uninterp spec fn default_hits(map: DefaultBTreeMap<usize, CodeCovLineCoverage>) -> Seq<CodeCovLineHit>;

/// The hits that `lines` holds for `line`, and `default` where it has no
/// entry.
pub open spec fn hits_or(
    lines: Map<usize, Seq<CodeCovLineHit>>,
    line: usize,
    default: Seq<CodeCovLineHit>,
) -> Seq<CodeCovLineHit> {
    if lines.contains_key(line) {
        lines[line]
    } else {
        default
    }
}

/// The hits that `lines` holds for `line`: none where it has no entry.
pub open spec fn hits_at(lines: Map<usize, Seq<CodeCovLineHit>>, line: usize) -> Seq<
    CodeCovLineHit,
> {
    hits_or(lines, line, Seq::empty())
}

/// The hits of each line in `lines`.
pub open spec fn hits_by_line(lines: Map<usize, CodeCovLineCoverage>) -> Map<
    usize,
    Seq<CodeCovLineHit>,
> {
    Map::new(|line: usize| lines.contains_key(line), |line: usize| lines[line]@)
}

/// Calls `DefaultBTreeMap::new`, which makes a map without entries whose
/// default is `CodeCovLineCoverage::default()`: a coverage without hits.
#[verifier::external_body]
fn new_line_map() -> (fresh: DefaultBTreeMap<usize, CodeCovLineCoverage>)
    ensures
        (recorded(fresh) == Map::<usize, Seq<CodeCovLineHit>>::empty()),
        default_hits(fresh) == Seq::<CodeCovLineHit>::empty(),
{
    DefaultBTreeMap::new()
}

/// Calls `DefaultBTreeMap::get_mut`, which hands out the entry of `line`,
/// after making one from the map's default where the line has none. What the
/// caller leaves in the entry is what the map then holds for the line; no
/// other entry changes, and the default stays what it was.
#[verifier::external_body]
fn line_mut(map: &mut DefaultBTreeMap<usize, CodeCovLineCoverage>, line: usize) -> (coverage:
    &mut CodeCovLineCoverage)
    ensures
        coverage@ == hits_or(recorded(*old(map)), line, default_hits(*old(map))),
        recorded(*final(map)) == recorded(*old(map)).insert(line, final(coverage)@),
        default_hits(*final(map)) == default_hits(*old(map)),
{
    map.get_mut(line)
}

/// Calls the `From` conversion of a `DefaultBTreeMap` into the `BTreeMap`
/// inside it, which keeps every entry and drops the default.
#[verifier::external_body]
fn into_lines(map: DefaultBTreeMap<usize, CodeCovLineCoverage>) -> (lines: BTreeMap<
    usize,
    CodeCovLineCoverage,
>)
    ensures
        hits_by_line(lines@) == recorded(map),
{
    map.into()
}

/// What `region` says of `line`: nothing unless it has a count, is no gap
/// and reaches from a line no later than `line` to one no earlier.
pub open spec fn hit_on(region: Region, line: usize) -> Option<CodeCovLineHit> {
    if region.has_count && !region.is_gap && region.start.0 <= line <= region.end.0 {
        Some(
            CodeCovLineHit {
                start_col: if line == region.start.0 {
                    Some(region.start.1)
                } else {
                    None
                },
                end_col: if line == region.end.0 {
                    Some(region.end.1)
                } else {
                    None
                },
                count: region.count,
            },
        )
    } else {
        None
    }
}

/// The hits of `line`: one from each of `regions` that says something of it,
/// in their order.
pub open spec fn line_hits(regions: Seq<Region>, line: usize) -> Seq<CodeCovLineHit>
    decreases regions.len(),
{
    if regions.len() == 0 {
        Seq::empty()
    } else {
        match hit_on(regions.last(), line) {
            Some(hit) => line_hits(regions.drop_last(), line).push(hit),
            None => line_hits(regions.drop_last(), line),
        }
    }
}

/// The hits of `line` from all of `earlier`, and from `region` as well where
/// `line` is before `upto`.
pub open spec fn line_hits_upto(
    earlier: Seq<Region>,
    region: Region,
    upto: int,
    line: usize,
) -> Seq<CodeCovLineHit> {
    if line < upto {
        line_hits(earlier.push(region), line)
    } else {
        line_hits(earlier, line)
    }
}

/// The lines that `regions` touch, each with its hits.
pub open spec fn aggregated(regions: Seq<Region>) -> Map<usize, Seq<CodeCovLineHit>> {
    Map::new(
        |line: usize| line_hits(regions, line).len() > 0,
        |line: usize| line_hits(regions, line),
    )
}

/// Records, for every line from an interval's first to its last, what the
/// interval says of it. Intervals without a count and gaps are passed over.
pub fn aggregate(regions: &Vec<Region>) -> (lines: BTreeMap<usize, CodeCovLineCoverage>)
    ensures
        hits_by_line(lines@) == aggregated(regions@),
{
    let mut line_coverage = new_line_map();

    for i in 0..regions.len()
        invariant
            default_hits(line_coverage) == Seq::<CodeCovLineHit>::empty(),
            recorded(line_coverage) == aggregated(regions@.take(i as int)),
    {
        let region = regions[i];
        let ghost earlier = regions@.take(i as int);
        proof {
            assert(regions@.take(i + 1) =~= earlier.push(region));
            assert(earlier.push(region).drop_last() =~= earlier);
        }
        if region.has_count && !region.is_gap && region.start.0 <= region.end.0 {
            let mut line_num = region.start.0;
            let mut done = false;
            while !done
                invariant
                    default_hits(line_coverage) == Seq::<CodeCovLineHit>::empty(),
                    region.has_count && !region.is_gap,
                    region.start.0 <= line_num <= region.end.0,
                    earlier.push(region).drop_last() == earlier,
                    forall|line: usize| #[trigger]
                        hits_at(recorded(line_coverage), line) == line_hits_upto(
                            earlier,
                            region,
                            if done {
                                region.end.0 + 1
                            } else {
                                line_num as int
                            },
                            line,
                        ),
                    forall|line: usize| #[trigger]
                        recorded(line_coverage).contains_key(line) ==> hits_at(
                            recorded(line_coverage),
                            line,
                        ).len() > 0,
                decreases
                        region.end.0 - line_num + if done {
                            0int
                        } else {
                            1int
                        },
            {
                let hit = CodeCovLineHit {
                    start_col: if line_num == region.start.0 {
                        Some(region.start.1)
                    } else {
                        None
                    },
                    end_col: if line_num == region.end.0 {
                        Some(region.end.1)
                    } else {
                        None
                    },
                    count: region.count,
                };
                let ghost before = recorded(line_coverage);
                proof {
                    assert(hits_at(before, line_num) == line_hits_upto(
                        earlier,
                        region,
                        line_num as int,
                        line_num,
                    ));
                }
                line_mut(&mut line_coverage, line_num).hit(hit);
                proof {
                    let after = recorded(line_coverage);
                    let upto = if line_num == region.end.0 {
                        region.end.0 + 1
                    } else {
                        line_num + 1
                    };
                    assert forall|line: usize| #[trigger] hits_at(after, line) == line_hits_upto(
                        earlier,
                        region,
                        upto,
                        line,
                    ) by {
                        if line != line_num {
                            assert(hits_at(before, line) == line_hits_upto(
                                earlier,
                                region,
                                line_num as int,
                                line,
                            ));
                        }
                    }
                    assert forall|line: usize| #[trigger] after.contains_key(line) implies hits_at(
                        after,
                        line,
                    ).len() > 0 by {
                        if line != line_num {
                            assert(before.contains_key(line));
                        }
                    }
                }
                if line_num == region.end.0 {
                    done = true;
                } else {
                    line_num += 1;
                }
            }
        }
        proof {
            let now = recorded(line_coverage);
            let goal = aggregated(earlier.push(region));
            assert forall|line: usize| #[trigger]
                now.contains_key(line) == goal.contains_key(line) && (now.contains_key(line)
                    ==> now[line] == goal[line]) by {
                if region.has_count && !region.is_gap && region.start.0 <= region.end.0 {
                    assert(hits_at(now, line) == line_hits_upto(
                        earlier,
                        region,
                        region.end.0 + 1,
                        line,
                    ));
                } else {
                    assert(hit_on(region, line) is None);
                    assert(aggregated(earlier).contains_key(line) == (line_hits(earlier, line).len()
                        > 0));
                }
            }
            assert(now.dom() =~= goal.dom());
            assert(now =~= goal);
        }
    }
    proof {
        assert(regions@.take(regions@.len() as int) =~= regions@);
    }
    into_lines(line_coverage)
}

} // verus!
