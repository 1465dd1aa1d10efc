//! Per-line coverage: what a report for line-based tools is made of.

use std::collections::BTreeMap;
use std::collections::HashMap;
use vstd::prelude::*;

verus! {

/// A line-based report: for each file name, the coverage of its lines.
pub struct CodeCov<'a> {
    pub coverage: HashMap<&'a str, BTreeMap<usize, CodeCovLineCoverage>>,
}

/// What one interval says of one line that it touches: its count, the column
/// where it starts if it starts on this line, and the column where it ends if
/// it ends on this line.
#[derive(Clone, Copy, Debug, PartialEq, Eq, Structural)]
pub struct CodeCovLineHit {
    pub start_col: Option<usize>,
    pub end_col: Option<usize>,
    pub count: u64,
}

/// The hits of one line, in the order in which they were recorded.
#[derive(Clone, Debug)]
pub struct CodeCovLineCoverage(Vec<CodeCovLineHit>);

/// What a line's hits come to.
#[derive(Clone, Copy, Debug, PartialEq, Eq, Structural)]
pub enum CoverageSummary {
    /// No interval touches the line.
    NoData,
    /// Every hit was run, or none was: the largest count among them.
    Count(u64),
    /// Some hits were run and some were not: how many were, out of how many.
    Partial { hit: usize, total: usize },
}

/// How many of `hits` have a count above zero.
pub open spec fn covered(hits: Seq<CodeCovLineHit>) -> nat
    decreases hits.len(),
{
    if hits.len() == 0 {
        0
    } else if hits.last().count > 0 {
        covered(hits.drop_last()) + 1
    } else {
        covered(hits.drop_last())
    }
}

/// The largest count among `hits`; 0 where there are none.
pub open spec fn max_count(hits: Seq<CodeCovLineHit>) -> u64
    decreases hits.len(),
{
    if hits.len() == 0 {
        0
    } else if hits.last().count >= max_count(hits.drop_last()) {
        hits.last().count
    } else {
        max_count(hits.drop_last())
    }
}

/// What `hits` come to: nothing where there are none, the largest count
/// where all of them were run or none was, and otherwise the share that was
/// run.
pub open spec fn summarized(hits: Seq<CodeCovLineHit>) -> CoverageSummary {
    if hits.len() == 0 {
        CoverageSummary::NoData
    } else if covered(hits) == 0 || covered(hits) == hits.len() {
        CoverageSummary::Count(max_count(hits))
    } else {
        CoverageSummary::Partial { hit: covered(hits) as usize, total: hits.len() as usize }
    }
}

/// The largest count is the count of one of the hits, and none has a larger
/// one.
pub proof fn lemma_max_count(hits: Seq<CodeCovLineHit>)
    ensures
        forall|i: int| 0 <= i < hits.len() ==> (#[trigger] hits[i]).count <= max_count(hits),
        hits.len() > 0 ==> exists|i: int| 0 <= i < hits.len() && hits[i].count == max_count(hits),
    decreases hits.len(),
{
    if hits.len() > 0 {
        let front = hits.drop_last();
        lemma_max_count(front);
        assert forall|i: int| 0 <= i < hits.len() implies (#[trigger] hits[i]).count <= max_count(
            hits,
        ) by {
            if i < front.len() {
                assert(front[i] == hits[i]);
            }
        }
        if hits.last().count >= max_count(front) {
            assert(hits[hits.len() - 1].count == max_count(hits));
        } else {
            let i = choose|i: int| 0 <= i < front.len() && front[i].count == max_count(front);
            assert(hits[i].count == max_count(hits));
        }
    }
}

/// The character that stands for the digit `d`.
pub open spec fn digit(d: nat) -> char {
    if d == 0 {
        '0'
    } else if d == 1 {
        '1'
    } else if d == 2 {
        '2'
    } else if d == 3 {
        '3'
    } else if d == 4 {
        '4'
    } else if d == 5 {
        '5'
    } else if d == 6 {
        '6'
    } else if d == 7 {
        '7'
    } else if d == 8 {
        '8'
    } else {
        '9'
    }
}

/// `n` written in decimal, without leading zeros.
pub open spec fn decimal(n: nat) -> Seq<char>
    decreases n,
{
    if n < 10 {
        seq![digit(n)]
    } else {
        decimal(n / 10).push(digit(n % 10))
    }
}

/// A share written as text: `hit`, a slash, `total`.
pub open spec fn fraction(hit: nat, total: nat) -> Seq<char> {
    decimal(hit) + seq!['/'] + decimal(total)
}

fn digit_char(d: usize) -> (c: char)
    requires
        d < 10,
    ensures
        c == digit(d as nat),
{
    if d == 0 {
        '0'
    } else if d == 1 {
        '1'
    } else if d == 2 {
        '2'
    } else if d == 3 {
        '3'
    } else if d == 4 {
        '4'
    } else if d == 5 {
        '5'
    } else if d == 6 {
        '6'
    } else if d == 7 {
        '7'
    } else if d == 8 {
        '8'
    } else {
        '9'
    }
}

fn push_decimal(out: &mut Vec<char>, n: usize)
    ensures
        final(out)@ == old(out)@ + decimal(n as nat),
    decreases n,
{
    if n >= 10 {
        push_decimal(out, n / 10);
    }
    out.push(digit_char(n % 10));
}

/// Calls `String::from_iter`, which std documents to build a string from
/// the characters of an iterator, in their order.
#[verifier::external_body]
fn string_of(chars: &Vec<char>) -> (text: String)
    ensures
        text@ == chars@,
{
    String::from_iter(chars.iter())
}

/// A share as text: `hit` in decimal, a slash, `total` in decimal. This is
/// how a [`CoverageSummary::Partial`] is written out.
pub fn fraction_text(hit: usize, total: usize) -> (text: String)
    ensures
        text@ == fraction(hit as nat, total as nat),
{
    let mut chars: Vec<char> = Vec::new();
    push_decimal(&mut chars, hit);
    chars.push('/');
    push_decimal(&mut chars, total);
    string_of(&chars)
}

impl View for CodeCovLineCoverage {
    type V = Seq<CodeCovLineHit>;

    closed spec fn view(&self) -> Seq<CodeCovLineHit> {
        self.0@
    }
}

impl Default for CodeCovLineCoverage {
    fn default() -> (coverage: Self)
        ensures
            coverage@ == Seq::<CodeCovLineHit>::empty(),
    {
        Self(Vec::new())
    }
}

impl CodeCovLineCoverage {
    pub fn hit(&mut self, hit: CodeCovLineHit)
        ensures
            final(self)@ == old(self)@.push(hit),
    {
        self.0.push(hit);
    }

    /// The hits recorded so far, oldest first.
    pub fn hits(&self) -> (hits: &Vec<CodeCovLineHit>)
        ensures
            hits@ == self@,
    {
        &self.0
    }

    /// What the line's hits come to.
    pub fn summary(&self) -> (summary: CoverageSummary)
        ensures
            summary == summarized(self@),
    {
        let hits = &self.0;
        let regions = hits.len();
        if regions == 0 {
            return CoverageSummary::NoData;
        }
        let mut regions_hit: usize = 0;
        let mut largest: u64 = 0;
        for i in 0..regions
            invariant
                regions == hits@.len(),
                regions_hit == covered(hits@.take(i as int)),
                regions_hit <= i,
                largest == max_count(hits@.take(i as int)),
        {
            proof {
                assert(hits@.take(i + 1).drop_last() =~= hits@.take(i as int));
            }
            if hits[i].count > 0 {
                regions_hit += 1;
            }
            if hits[i].count >= largest {
                largest = hits[i].count;
            }
        }
        proof {
            assert(hits@.take(regions as int) =~= hits@);
        }
        if regions_hit == 0 || regions_hit == regions {
            CoverageSummary::Count(largest)
        } else {
            CoverageSummary::Partial { hit: regions_hit, total: regions }
        }
    }
}

impl<'a> CodeCov<'a> {
    pub fn new() -> (report: Self)
        ensures
            (report.coverage@ == Map::<&'a str, BTreeMap<usize, CodeCovLineCoverage>>::empty()),
    {
        Self { coverage: HashMap::new() }
    }
}

} // verus!
