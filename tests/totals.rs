use rustyribs::analyzers::filter::FilterAnalyzer;
use rustyribs::analyzers::simple::SimpleAnalyzer;
use rustyribs::cov::{Coverage, Fraction};
use rustyribs::diff::{get_exclusions_from_diff, DiffSegment};
use rustyribs::file::{FileTotals, ReportFile};
use rustyribs::line::{CoverageType, LineSession, ReportLine};
use rustyribs::report::{Report, ReportTotals};

fn two_line_report() -> Report {
    let first_file = ReportFile::new(vec![
        (
            1,
            ReportLine {
                coverage: Coverage::Hit,
                coverage_type: CoverageType::Standard,
                sessions: vec![LineSession {
                    id: 0,
                    coverage: Coverage::Hit,
                    complexity: None,
                }],
                complexity: None,
            },
        ),
        (
            2,
            ReportLine {
                coverage: Coverage::Hit,
                coverage_type: CoverageType::Standard,
                sessions: vec![
                    LineSession {
                        id: 0,
                        coverage: Coverage::Hit,
                        complexity: None,
                    },
                    LineSession {
                        id: 1,
                        coverage: Coverage::Partial(Fraction::new(1, 2)),
                        complexity: None,
                    },
                ],
                complexity: None,
            },
        ),
    ]);
    Report {
        report_files: vec![
            ("file1.go".to_string(), first_file),
            ("file_p.py".to_string(), ReportFile::new(vec![])),
            ("plo.c".to_string(), ReportFile::new(vec![])),
        ],
        session_mapping: vec![
            (0, vec!["unit".to_string()]),
            (1, vec!["integration".to_string()]),
        ],
    }
}

#[test]
fn adds_up_right() {
    let mut totals = ReportTotals {
        files: 0,
        lines: 2,
        hits: 2,
        misses: 0,
        partials: 0,
        branches: 9,
        sessions: 0,
        complexity: 0,
        complexity_total: 0,
        methods: 2,
    };
    let f = FileTotals {
        hits: 2,
        misses: 3,
        partials: 5,
        branches: 7,
        sessions: 12,
        complexity: 19,
        complexity_total: 31,
        methods: 50,
    };
    totals.add_up(&f);
    assert_eq!(totals.files, 1);
    assert_eq!(totals.lines, 12);
    assert_eq!(totals.hits, 4);
    assert_eq!(totals.misses, 3);
    assert_eq!(totals.partials, 5);
    assert_eq!(totals.branches, 16);
    assert_eq!(totals.sessions, 0);
    assert_eq!(totals.complexity, 19);
    assert_eq!(totals.complexity_total, 31);
    assert_eq!(totals.methods, 52);
    assert_eq!(totals.get_coverage(), Some("33.33333".to_string()));
}

#[test]
fn rounds_right() {
    let t = ReportTotals {
        files: 2,
        lines: 355,
        hits: 261,
        misses: 94,
        partials: 0,
        branches: 0,
        sessions: 0,
        complexity: 0,
        complexity_total: 0,
        methods: 0,
    };
    assert_eq!(t.get_coverage(), Some("73.52113".to_string()));
}

fn totals_with(hits: i32, lines: i32) -> ReportTotals {
    let mut t = ReportTotals::new();
    t.hits = hits;
    t.lines = lines;
    t
}

#[test]
fn coverage_text_edges() {
    assert_eq!(totals_with(0, 0).get_coverage(), None);
    assert_eq!(totals_with(7, 7).get_coverage(), Some("100".to_string()));
    assert_eq!(totals_with(0, 7).get_coverage(), Some("0".to_string()));
    assert_eq!(totals_with(2, 3).get_coverage(), Some("66.66667".to_string()));
    assert_eq!(totals_with(1, 256).get_coverage(), Some("0.39063".to_string()));
    assert_eq!(totals_with(1, 3).get_coverage(), Some("33.33333".to_string()));
    assert_eq!(totals_with(9, 10).get_coverage(), Some("90.00000".to_string()));
    assert_eq!(totals_with(11, 13).get_coverage(), Some("84.61538".to_string()));
    assert_eq!(totals_with(3, 2).get_coverage(), Some("150.00000".to_string()));
}

#[test]
fn add_up_skips_empty_files() {
    let mut t = ReportTotals::new();
    t.add_up(&FileTotals::new());
    assert_eq!(t, ReportTotals::new());
    let mut one = FileTotals::new();
    one.misses = 1;
    t.add_up(&one);
    t.add_up(&FileTotals::new());
    t.add_up(&one);
    assert_eq!(t.files, 2);
    assert_eq!(t.lines, 2);
    assert_eq!(t.get_complexity(), Some(0));
    assert_eq!(ReportTotals::new().get_complexity(), None);
}

#[test]
fn get_totals_works() {
    let report = two_line_report();
    let analyzer_unit = SimpleAnalyzer {};
    let unit_res = analyzer_unit.get_totals(&report);
    assert_eq!(unit_res.files, 1);
    assert_eq!(unit_res.lines, 2);
    assert_eq!(unit_res.hits, 2);
    assert_eq!(unit_res.misses, 0);
    assert_eq!(unit_res.partials, 0);
}

#[test]
fn filtered_totals_works() {
    let report = two_line_report();
    let analyzer_unit = FilterAnalyzer {
        files: Some(vec!["file1.go".to_string()]),
        flags: Some(vec!["unit".to_string()]),
    };
    let unit_res = analyzer_unit.get_totals(&report);
    assert_eq!(unit_res.files, 1);
    assert_eq!(unit_res.lines, 2);
    assert_eq!(unit_res.hits, 2);
    assert_eq!(unit_res.misses, 0);
    assert_eq!(unit_res.partials, 0);
    assert_eq!(unit_res.sessions, 1);
    let analyzer_integration = FilterAnalyzer {
        files: Some(vec!["file1.go".to_string()]),
        flags: Some(vec!["integration".to_string()]),
    };
    let integration_res = analyzer_integration.get_totals(&report);
    assert_eq!(integration_res.files, 1);
    assert_eq!(integration_res.lines, 1);
    assert_eq!(integration_res.hits, 0);
    assert_eq!(integration_res.misses, 0);
    assert_eq!(integration_res.partials, 1);
    assert_eq!(integration_res.sessions, 1);
    let analyzer_unit_and_integration = FilterAnalyzer {
        files: Some(vec!["file1.go".to_string()]),
        flags: Some(vec!["integration".to_string(), "unit".to_string()]),
    };
    let integration_and_unit_res = analyzer_unit_and_integration.get_totals(&report);
    assert_eq!(integration_and_unit_res.files, 1);
    assert_eq!(integration_and_unit_res.lines, 2);
    assert_eq!(integration_and_unit_res.hits, 2);
    assert_eq!(integration_and_unit_res.misses, 0);
    assert_eq!(integration_and_unit_res.partials, 0);
    assert_eq!(integration_and_unit_res.sessions, 2);
    let analyzer_apple_and_banana = FilterAnalyzer {
        files: Some(vec!["file1.go".to_string()]),
        flags: Some(vec!["banana".to_string(), "apple".to_string()]),
    };
    let apple_and_banana_res = analyzer_apple_and_banana.get_totals(&report);
    assert_eq!(apple_and_banana_res.files, 0);
    assert_eq!(apple_and_banana_res.lines, 0);
    assert_eq!(apple_and_banana_res.hits, 0);
    assert_eq!(apple_and_banana_res.misses, 0);
    assert_eq!(apple_and_banana_res.partials, 0);
    assert_eq!(apple_and_banana_res.sessions, 0);
}

#[test]
fn filtered_totals_without_flags_works() {
    let report = two_line_report();
    let analyzer = FilterAnalyzer {
        files: Some(vec!["file1.go".to_string()]),
        flags: None,
    };
    let unit_res = analyzer.get_totals(&report);
    assert_eq!(unit_res.files, 1);
    assert_eq!(unit_res.lines, 2);
    assert_eq!(unit_res.hits, 2);
    assert_eq!(unit_res.misses, 0);
    assert_eq!(unit_res.partials, 0);
    assert_eq!(unit_res.sessions, 2);
}

#[test]
fn unfiltered_analyzer_matches_simple_analyzer() {
    let report = two_line_report();
    let filtered = FilterAnalyzer::new(None, None).get_totals(&report);
    let simple = SimpleAnalyzer::new().get_totals(&report);
    assert_eq!(filtered, simple);
    assert_eq!(simple, report.get_simple_totals());
}

#[test]
fn should_include_follows_file_filter() {
    let a = FilterAnalyzer::new(Some(vec!["x.c".to_string()]), None);
    assert!(a.should_include("x.c"));
    assert!(!a.should_include("y.c"));
    assert!(FilterAnalyzer::new(None, None).should_include("y.c"));
}

#[test]
fn sessions_from_flags_and_lookup() {
    let report = two_line_report();
    assert_eq!(report.get_sessions_from_flags(&vec!["integration".to_string()]), vec![1]);
    assert_eq!(
        report.get_sessions_from_flags(&vec!["unit".to_string(), "integration".to_string()]),
        vec![0, 1]
    );
    assert!(report.get_sessions_from_flags(&vec!["none".to_string()]).is_empty());
    assert!(report.get_by_filename("plo.c").is_some());
    assert!(report.get_by_filename("missing.c").is_none());
}

#[test]
fn per_flag_totals_count_sessions_per_flag() {
    let report = two_line_report();
    let file = report.get_by_filename("file1.go").unwrap();
    let per_file = file.calculate_per_flag_totals(&report.session_mapping);
    let names: Vec<&str> = per_file.iter().map(|(n, _)| n.as_str()).collect();
    assert_eq!(names, vec!["unit", "integration"]);
    assert_eq!((per_file[0].1.hits, per_file[0].1.partials), (2, 0));
    assert_eq!((per_file[1].1.hits, per_file[1].1.partials), (0, 1));
    let per_report = report.calculate_per_flag_totals();
    assert_eq!(per_report.len(), 2);
    assert_eq!(per_report[0].0, "unit");
    assert_eq!((per_report[0].1.files, per_report[0].1.lines, per_report[0].1.hits), (1, 2, 2));
    assert_eq!((per_report[1].1.files, per_report[1].1.lines, per_report[1].1.partials), (1, 1, 1));
}

#[test]
fn filtered_file_totals() {
    let report = two_line_report();
    let file = report.get_by_filename("file1.go").unwrap();
    let t = file.get_filtered_totals(&vec![1]);
    assert_eq!((t.hits, t.misses, t.partials), (0, 0, 1));
    let none = file.get_filtered_totals(&vec![7]);
    assert_eq!(none, FileTotals::new());
    assert_eq!(file.get_totals().hits, 2);
}

fn hunk(start: (i32, i32, i32, i32), markers: &[&str]) -> DiffSegment {
    (start, markers.iter().map(|m| m.to_string()).collect())
}

#[test]
fn exclusions_follow_markers() {
    let hunks = vec![hunk(
        (988, 15, 988, 16),
        &[" ", " ", " ", "-", "-", " ", " ", " ", " ", " ", " ", " ", "+", "+", "+", " ", " ", " "],
    )];
    let (base, head) = get_exclusions_from_diff(Some(&hunks));
    assert_eq!(base, vec![991, 992]);
    assert_eq!(head, vec![998, 999, 1000]);
    let (b, h) = get_exclusions_from_diff(None);
    assert!(b.is_empty() && h.is_empty());
}

#[test]
fn exclusions_count_plus_markers_and_sort() {
    let hunks = vec![
        hunk((20, 2, 30, 3), &["+", "-", "+", " ", "+"]),
        hunk((1, 1, 1, 2), &["+", "+", "-"]),
    ];
    let (base, head) = get_exclusions_from_diff(Some(&hunks));
    assert_eq!(head, vec![1, 2, 30, 31, 33]);
    assert_eq!(head.len(), 5);
    assert_eq!(base, vec![1, 20]);
}
