use llvm_codecov::codecov::{
    fraction_text, CodeCov, CodeCovLineCoverage, CodeCovLineHit, CoverageSummary,
};

fn hit(count: u64) -> CodeCovLineHit {
    CodeCovLineHit { start_col: None, end_col: None, count }
}

fn line(counts: &[u64]) -> CodeCovLineCoverage {
    let mut coverage = CodeCovLineCoverage::default();
    for count in counts {
        coverage.hit(hit(*count));
    }
    coverage
}

#[test]
fn a_new_report_is_empty() {
    let report = CodeCov::new();
    assert!(report.coverage.is_empty());
}

#[test]
fn a_fresh_line_has_no_hits() {
    assert!(CodeCovLineCoverage::default().hits().is_empty());
}

#[test]
fn hits_are_kept_in_order() {
    let mut coverage = CodeCovLineCoverage::default();
    let first = CodeCovLineHit { start_col: Some(4), end_col: None, count: 2 };
    let second = CodeCovLineHit { start_col: None, end_col: Some(9), count: 0 };
    coverage.hit(first);
    coverage.hit(second);
    coverage.hit(first);
    assert_eq!(coverage.hits(), &vec![first, second, first]);
}

#[test]
fn all_hits_run_gives_the_largest_count() {
    assert_eq!(line(&[5, 3]).summary(), CoverageSummary::Count(5));
    assert_eq!(line(&[3, 5]).summary(), CoverageSummary::Count(5));
    assert_eq!(line(&[1, 9, 4, 9, 2]).summary(), CoverageSummary::Count(9));
    assert_eq!(line(&[u64::MAX, 1]).summary(), CoverageSummary::Count(u64::MAX));
    assert_eq!(line(&[7]).summary(), CoverageSummary::Count(7));
}

#[test]
fn no_hit_run_gives_zero() {
    assert_eq!(line(&[0, 0]).summary(), CoverageSummary::Count(0));
    assert_eq!(line(&[0]).summary(), CoverageSummary::Count(0));
}

#[test]
fn some_hits_run_gives_the_share() {
    let summary = line(&[0, 4]).summary();
    assert_eq!(summary, CoverageSummary::Partial { hit: 1, total: 2 });
    assert_eq!(fraction_text(1, 2), "1/2");
    assert_eq!(line(&[4, 0]).summary(), CoverageSummary::Partial { hit: 1, total: 2 });
    assert_eq!(line(&[9, 0, 1, 0, 0]).summary(), CoverageSummary::Partial { hit: 2, total: 5 });
}

#[test]
fn a_line_without_hits_has_no_data() {
    assert_eq!(line(&[]).summary(), CoverageSummary::NoData);
}

#[test]
fn a_share_is_written_in_decimal() {
    let mut counts = vec![1u64; 10];
    counts.push(0);
    counts.push(0);
    let summary = line(&counts).summary();
    assert_eq!(summary, CoverageSummary::Partial { hit: 10, total: 12 });
    assert_eq!(fraction_text(10, 12), "10/12");
    assert_eq!(fraction_text(0, 1000), "0/1000");
    assert_eq!(fraction_text(907, 65536), "907/65536");
    assert_eq!(fraction_text(9, 10), "9/10");
    assert_eq!(fraction_text(usize::MAX, 9), format!("{}/9", usize::MAX));
}
