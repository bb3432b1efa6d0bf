use helix::migrate::coverage::{CoverageReport, Pattern};

#[test]
fn p1_and_p2_supported_p3_through_p6_are_not_yet() {
    let report = CoverageReport::collect();
    assert!(report.supported.contains(&Pattern::P1StaticSite));
    assert!(report.supported.contains(&Pattern::P2FormCrud));
    assert!(!report.supported.contains(&Pattern::P3DataViz));
    assert!(!report.supported.contains(&Pattern::P4MediaPlayer));
    assert!(!report.supported.contains(&Pattern::P5Realtime));
    assert!(!report.supported.contains(&Pattern::P6ComplexSpa));
}

#[test]
fn initial_coverage_is_two_of_six_patterns() {
    let report = CoverageReport::collect();
    // Baseline: P1 static sites and P2 form-based CRUD are wired in.
    assert_eq!(report.supported.len(), 2);
    assert_eq!(report.supported.len() as f64 / Pattern::all().len() as f64, 2.0 / 6.0);
}

#[test]
fn equivalence_pass_rate_is_one_for_supported_patterns() {
    let report = CoverageReport::collect();
    assert!(report.equivalence_checks >= 1);
    assert_eq!(report.equivalence_passed, report.equivalence_checks);
    assert_eq!(
        report.equivalence_passed as f64 / report.equivalence_checks as f64,
        1.0
    );
}

#[test]
fn report_text_lists_every_pattern() {
    let text = CoverageReport::collect().report_text();
    for p in Pattern::all() {
        assert!(text.contains(p.label()), "missing {} in report", p.label());
    }
    assert!(text.contains("P1 static content sites"));
}

#[test]
fn percentages_read_as_in_double_precision() {
    let rate = |passed: u64, checks: u64| {
        let report =
            CoverageReport { supported: vec![], equivalence_checks: checks, equivalence_passed: passed };
        let text = report.report_text();
        let line = text.lines().find(|l| l.contains("pass-rate")).unwrap().to_string();
        line.trim_start_matches("  Stage S3 equivalence pass-rate: ")
            .split('%')
            .next()
            .unwrap()
            .to_string()
    };
    let expected = |passed: u64, checks: u64| format!("{:.1}", passed as f64 / checks as f64 * 100.0);
    assert_eq!(rate(1, 2000), "0.1");
    assert_eq!(rate(3, 2000), "0.1");
    assert_eq!(rate(1, 16), "6.2");
    assert_eq!(rate(1, 400), "0.2");
    assert_eq!(rate(0, 0), "100.0");
    assert_eq!(rate(0, 7), "0.0");
    for checks in 1..220u64 {
        for passed in 0..=checks {
            assert_eq!(rate(passed, checks), expected(passed, checks));
        }
    }
    for (p, c) in [
        (999, 2000),
        (1999, 2000),
        (u64::MAX, 1),
        (1, u64::MAX),
        (u64::MAX, u64::MAX),
        (u64::MAX - 1025, 3),
        (9_007_199_254_740_993, 9_007_199_254_740_995),
        ((1 << 63) + 1, 7),
        (5, 3),
        (1 << 53, 2000),
    ] {
        assert_eq!(rate(p, c), expected(p, c), "{p}/{c}");
    }
    for odd in (1..4000u64).step_by(2) {
        assert_eq!(rate(odd, 2000), expected(odd, 2000));
    }
}
