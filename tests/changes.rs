use std::collections::HashMap;
use std::collections::HashSet;

use rustyribs::analyzers::filter::FilterAnalyzer;
use rustyribs::changes::{run_comparison_analysis, ChangeAnalysisSummary, ChangePatchTotals};
use rustyribs::cov::{Coverage, Fraction};
use rustyribs::diff::DiffInput;
use rustyribs::file::{FileTotals, ReportFile};
use rustyribs::line::{CoverageType, LineSession, ReportLine};
use rustyribs::profiling::{ProfilingData, SingleFileProfilingData, SingleGroupProfilingData};
use rustyribs::report::Report;

fn create_line_for_test(line_number: i32, coverage: Coverage) -> (i32, ReportLine) {
    (
        line_number,
        ReportLine {
            coverage: coverage.clone(),
            coverage_type: CoverageType::Standard,
            sessions: vec![LineSession {
                id: 0,
                coverage: coverage,
                complexity: None,
            }],
            complexity: None,
        },
    )
}

fn hit_and_half_line() -> ReportLine {
    ReportLine {
        coverage: Coverage::Hit,
        coverage_type: CoverageType::Standard,
        sessions: vec![
            LineSession {
                id: 0,
                coverage: Coverage::Hit,
                complexity: None,
            },
            LineSession {
                id: 1,
                coverage: Coverage::Partial(Fraction::new(1, 2)),
                complexity: None,
            },
        ],
        complexity: None,
    }
}

fn markers(list: &[&str]) -> Vec<String> {
    list.iter().map(|m| m.to_string()).collect()
}

fn unit_and_integration() -> Vec<(i32, Vec<String>)> {
    vec![
        (0, vec!["unit".to_string()]),
        (1, vec!["integration".to_string()]),
    ]
}

#[test]
fn get_changes_works() {
    let first_report = Report {
        report_files: vec![
            (
                "apple".to_string(),
                ReportFile::new(vec![
                    create_line_for_test(1, Coverage::Hit),
                    (2, hit_and_half_line()),
                ]),
            ),
            (
                "another_unmodified.py".to_string(),
                ReportFile::new(vec![create_line_for_test(22, Coverage::Hit)]),
            ),
        ],
        session_mapping: unit_and_integration(),
    };
    let second_report = Report {
        report_files: vec![
            (
                "file1.go".to_string(),
                ReportFile::new(vec![
                    create_line_for_test(1, Coverage::Hit),
                    (
                        2,
                        ReportLine {
                            coverage: Coverage::Miss,
                            coverage_type: CoverageType::Standard,
                            sessions: vec![LineSession {
                                id: 1,
                                coverage: Coverage::Miss,
                                complexity: None,
                            }],
                            complexity: None,
                        },
                    ),
                ]),
            ),
            ("file_p.py".to_string(), ReportFile::new(vec![])),
            (
                "another_unmodified.py".to_string(),
                ReportFile::new(vec![create_line_for_test(22, Coverage::Hit)]),
            ),
        ],
        session_mapping: unit_and_integration(),
    };
    let diff: DiffInput = vec![
        (
            "file1.go".to_string(),
            (
                "changed".to_string(),
                Some("apple".to_string()),
                vec![((1, 0, 1, 1), markers(&["+"]))],
            ),
        ),
        (
            "file_p.py".to_string(),
            ("new".to_string(), None, vec![((1, 0, 1, 1), markers(&["+"]))]),
        ),
    ];
    let res = run_comparison_analysis(&first_report, &second_report, &diff);
    let mut files_array: Vec<_> = res.files;
    let present_keys: HashSet<String> = files_array.iter().map(|f| f.head_name.to_owned()).collect();
    assert!(present_keys.contains(&"file_p.py".to_string()));
    assert!(present_keys.contains(&"file1.go".to_string()));
    assert_eq!(present_keys.len(), 2);
    files_array.sort_by(|a, b| a.base_name.partial_cmp(&b.base_name).unwrap());
    let one_case = files_array.get(0).unwrap();
    assert_eq!(one_case.base_name, "apple");
    assert_eq!(one_case.file_was_added_by_diff, false);
    assert_eq!(one_case.file_was_removed_by_diff, false);
    assert_eq!(one_case.added_diff_coverage, Some(vec![(1, Coverage::Hit)]));
    assert_eq!(one_case.removed_diff_coverage, Some(vec![]));
    assert_eq!(one_case.unexpected_line_changes.len(), 2);
}

#[test]
fn last_line_near_end_case() {
    let diff: DiffInput = vec![(
        "file1.go".to_string(),
        (
            "modified".to_string(),
            None,
            vec![(
                (988, 15, 988, 16),
                markers(&[
                    " ", " ", " ", "-", "-", " ", " ", " ", " ", " ", " ", " ", "+", "+", "+", " ",
                    " ", " ",
                ]),
            )],
        ),
    )];
    let first_report = Report {
        report_files: vec![(
            "file1.go".to_string(),
            ReportFile::new(vec![
                create_line_for_test(1079, Coverage::Hit),
                create_line_for_test(1075, Coverage::Miss),
            ]),
        )],
        session_mapping: vec![(0, vec!["unit".to_string()])],
    };
    let second_report = Report {
        report_files: vec![(
            "file1.go".to_string(),
            ReportFile::new(vec![create_line_for_test(1076, Coverage::Miss)]),
        )],
        session_mapping: vec![(0, vec!["unit".to_string()])],
    };
    let full_res = run_comparison_analysis(&first_report, &second_report, &diff);
    println!("{:?}", full_res);
    assert_eq!(
        full_res.changes_summary,
        ChangeAnalysisSummary {
            patch_totals: ChangePatchTotals {
                hits: 0,
                misses: 0,
                partials: 0,
            }
        }
    );
    assert_eq!(full_res.changes_summary.patch_totals.coverage_ratio(), None);
    assert_eq!(full_res.files.len(), 1);
    let first_result_file = &full_res.files[0];
    assert_eq!(first_result_file.base_name, "file1.go");
    assert_eq!(first_result_file.head_name, "file1.go");
    assert_eq!(first_result_file.file_was_added_by_diff, false);
    assert_eq!(first_result_file.file_was_removed_by_diff, false);
    assert_eq!(
        first_result_file.base_coverage,
        Some(FileTotals {
            hits: 1,
            misses: 1,
            partials: 0,
            branches: 0,
            sessions: 0,
            complexity: 0,
            complexity_total: 0,
            methods: 0
        })
    );
    assert_eq!(
        first_result_file.head_coverage,
        Some(FileTotals {
            hits: 0,
            misses: 1,
            partials: 0,
            branches: 0,
            sessions: 0,
            complexity: 0,
            complexity_total: 0,
            methods: 0
        })
    );
    assert_eq!(first_result_file.removed_diff_coverage, Some(vec![]));
    assert_eq!(first_result_file.added_diff_coverage, Some(vec![]));
    assert_eq!(
        first_result_file.unexpected_line_changes,
        [((1079, Some(Coverage::Hit)), (1080, None))]
    );
    assert_eq!(first_result_file.lines_only_on_base, [991, 992]);
    assert_eq!(first_result_file.lines_only_on_head, [998, 999, 1000]);
}

#[test]
fn complete_case() {
    let diff: DiffInput = vec![
        (
            "file_with_diff_only.md".to_string(),
            ("changed".to_string(), None, vec![((1, 0, 1, 1), markers(&["+"]))]),
        ),
        (
            "renamed_new.c".to_string(),
            (
                "changed".to_string(),
                Some("renamed_old.c".to_string()),
                vec![((1, 0, 1, 1), markers(&["+"]))],
            ),
        ),
        (
            "renamed_new_with_changes.c".to_string(),
            (
                "changed".to_string(),
                Some("renamed_old_with_changes.c".to_string()),
                vec![((100, 1, 100, 1), markers(&["-", "+"]))],
            ),
        ),
        (
            "removed_file.c".to_string(),
            (
                "deleted".to_string(),
                None,
                vec![((1, 4, 1, 0), markers(&["-", "-", "-", "-"]))],
            ),
        ),
        (
            "added_file.c".to_string(),
            ("new".to_string(), None, vec![((1, 0, 1, 10), vec!["+".to_string(); 10])]),
        ),
        (
            "file_with_unexpected_changes.c".to_string(),
            (
                "changed".to_string(),
                None,
                vec![((21, 3, 21, 2), markers(&["-", "-", "-", "+", "+"]))],
            ),
        ),
        (
            "file_with_unexpec_and_cov_diff.c".to_string(),
            (
                "changed".to_string(),
                None,
                vec![(
                    (65, 5, 65, 4),
                    markers(&["-", "-", "-", "-", "-", "+", "+", "+", "+"]),
                )],
            ),
        ),
        (
            "file_with_cov_remov_and_add.c".to_string(),
            (
                "changed".to_string(),
                None,
                vec![
                    ((5, 2, 5, 3), markers(&["-", "-", "+", "+", "+"])),
                    (
                        (15, 3, 16, 10),
                        markers(&["-", "-", " ", "+", "+", "+", "+", "+", "+", "+", "+", "+"]),
                    ),
                ],
            ),
        ),
    ];

    let first_report = Report {
        report_files: vec![
            (
                "unrelated_file.c".to_string(),
                ReportFile::new(vec![
                    create_line_for_test(76, Coverage::Hit),
                    create_line_for_test(79, Coverage::Hit),
                ]),
            ),
            (
                "file_with_cov_remov_and_add.c".to_string(),
                ReportFile::new(vec![
                    create_line_for_test(6, Coverage::Hit),
                    create_line_for_test(8, Coverage::Hit),
                    create_line_for_test(16, Coverage::Hit),
                    create_line_for_test(17, Coverage::Hit),
                    create_line_for_test(18, Coverage::Partial(Fraction::new(1, 2))),
                ]),
            ),
            (
                "file_with_unexpected_changes.c".to_string(),
                ReportFile::new(vec![
                    create_line_for_test(5, Coverage::Hit),
                    create_line_for_test(10, Coverage::Miss),
                    create_line_for_test(15, Coverage::Hit),
                    create_line_for_test(20, Coverage::Hit),
                    create_line_for_test(25, Coverage::Partial(Fraction::new(1, 4))),
                ]),
            ),
            (
                "file_with_unexpec_and_cov_diff.c".to_string(),
                ReportFile::new(vec![
                    create_line_for_test(64, Coverage::Hit),
                    create_line_for_test(65, Coverage::Hit),
                    create_line_for_test(66, Coverage::Hit),
                    create_line_for_test(67, Coverage::Miss),
                    create_line_for_test(68, Coverage::Hit),
                    create_line_for_test(69, Coverage::Hit),
                    create_line_for_test(70, Coverage::Hit),
                ]),
            ),
            (
                "removed_file.c".to_string(),
                ReportFile::new(vec![
                    create_line_for_test(1, Coverage::Hit),
                    create_line_for_test(2, Coverage::Miss),
                    create_line_for_test(3, Coverage::Ignore),
                    create_line_for_test(4, Coverage::Partial(Fraction::new(1, 3))),
                ]),
            ),
            (
                "renamed_old.c".to_string(),
                ReportFile::new(vec![create_line_for_test(
                    101,
                    Coverage::Partial(Fraction::new(1, 2)),
                )]),
            ),
            (
                "renamed_old_with_changes.c".to_string(),
                ReportFile::new(vec![create_line_for_test(
                    101,
                    Coverage::Partial(Fraction::new(1, 2)),
                )]),
            ),
            (
                "missing.c".to_string(),
                ReportFile::new(vec![create_line_for_test(2, Coverage::Miss)]),
            ),
        ],
        session_mapping: vec![],
    };

    let second_report = Report {
        report_files: vec![
            (
                "unrelated_file.c".to_string(),
                ReportFile::new(vec![
                    create_line_for_test(76, Coverage::Hit),
                    create_line_for_test(79, Coverage::Hit),
                ]),
            ),
            (
                "file_with_cov_remov_and_add.c".to_string(),
                ReportFile::new(vec![
                    create_line_for_test(6, Coverage::Hit),
                    create_line_for_test(9, Coverage::Hit),
                    create_line_for_test(16, Coverage::Hit),
                    create_line_for_test(17, Coverage::Hit),
                    create_line_for_test(26, Coverage::Partial(Fraction::new(1, 2))),
                ]),
            ),
            (
                "file_with_unexpected_changes.c".to_string(),
                ReportFile::new(vec![
                    create_line_for_test(5, Coverage::Hit),
                    create_line_for_test(10, Coverage::Miss),
                    create_line_for_test(15, Coverage::Miss),
                    create_line_for_test(20, Coverage::Hit),
                    create_line_for_test(25, Coverage::Partial(Fraction::new(1, 4))),
                ]),
            ),
            (
                "file_with_unexpec_and_cov_diff.c".to_string(),
                ReportFile::new(vec![
                    create_line_for_test(64, Coverage::Partial(Fraction::new(1, 4))),
                    create_line_for_test(65, Coverage::Hit),
                    create_line_for_test(66, Coverage::Hit),
                    create_line_for_test(67, Coverage::Miss),
                    create_line_for_test(68, Coverage::Hit),
                    create_line_for_test(69, Coverage::Ignore),
                ]),
            ),
            (
                "added_file.c".to_string(),
                ReportFile::new(vec![
                    create_line_for_test(1, Coverage::Miss),
                    create_line_for_test(4, Coverage::Miss),
                ]),
            ),
            (
                "renamed_new.c".to_string(),
                ReportFile::new(vec![create_line_for_test(
                    102,
                    Coverage::Partial(Fraction::new(1, 2)),
                )]),
            ),
            (
                "renamed_new_with_changes.c".to_string(),
                ReportFile::new(vec![create_line_for_test(
                    102,
                    Coverage::Partial(Fraction::new(1, 2)),
                )]),
            ),
        ],
        session_mapping: vec![],
    };
    let full_res = run_comparison_analysis(&first_report, &second_report, &diff);
    println!("{:?}", full_res);
    assert_eq!(
        full_res.changes_summary,
        ChangeAnalysisSummary {
            patch_totals: ChangePatchTotals {
                hits: 5,
                misses: 3,
                partials: 0,
            }
        }
    );
    let (covered, total) = full_res.changes_summary.patch_totals.coverage_ratio().unwrap();
    assert_eq!(covered as f32 / total as f32, 0.625);
    let mut res = full_res.files;
    res.sort_by(|a, b| a.base_name.partial_cmp(&b.base_name).unwrap());
    assert_eq!(
        vec![
            "added_file.c",
            "file_with_cov_remov_and_add.c",
            "file_with_unexpec_and_cov_diff.c",
            "file_with_unexpected_changes.c",
            "missing.c",
            "removed_file.c",
            "renamed_new.c",
            "renamed_new_with_changes.c",
        ],
        res.iter().map(|b| b.head_name.to_string()).collect::<Vec<_>>()
    );
    assert_eq!(
        vec![
            "added_file.c",
            "file_with_cov_remov_and_add.c",
            "file_with_unexpec_and_cov_diff.c",
            "file_with_unexpected_changes.c",
            "missing.c",
            "removed_file.c",
            "renamed_old.c",
            "renamed_old_with_changes.c"
        ],
        res.iter().map(|b| b.base_name.to_string()).collect::<Vec<_>>()
    );
    assert_eq!(
        vec![true, false, false, false, false, false, false, false],
        res.iter().map(|b| b.file_was_added_by_diff).collect::<Vec<_>>()
    );
    assert_eq!(
        vec![false, false, false, false, false, true, false, false],
        res.iter().map(|b| b.file_was_removed_by_diff).collect::<Vec<_>>()
    );
    let results_mapping: HashMap<String, _> = res
        .into_iter()
        .map(|a| (a.base_name.to_string(), a))
        .collect();
    let file_with_unexpec_and_cov_diff = results_mapping
        .get("file_with_unexpec_and_cov_diff.c")
        .expect("There should be a file_with_unexpec_and_cov_diff file here");
    assert_eq!(
        file_with_unexpec_and_cov_diff.unexpected_line_changes,
        vec![
            (
                (64, Some(Coverage::Hit)),
                (64, Some(Coverage::Partial(Fraction::new(1, 4))))
            ),
            ((70, Some(Coverage::Hit)), (69, Some(Coverage::Ignore)))
        ]
    );
    assert_eq!(
        file_with_unexpec_and_cov_diff.removed_diff_coverage,
        Some(vec![
            (65, Coverage::Hit),
            (66, Coverage::Hit),
            (67, Coverage::Miss),
            (68, Coverage::Hit),
            (69, Coverage::Hit),
        ])
    );
    assert_eq!(
        file_with_unexpec_and_cov_diff.added_diff_coverage,
        Some(vec![
            (65, Coverage::Hit),
            (66, Coverage::Hit),
            (67, Coverage::Miss),
            (68, Coverage::Hit),
        ])
    );
}

#[test]
fn identical_reports_give_no_changes() {
    let make = || Report {
        report_files: vec![(
            "a.c".to_string(),
            ReportFile::new(vec![
                create_line_for_test(3, Coverage::Hit),
                create_line_for_test(7, Coverage::Miss),
            ]),
        )],
        session_mapping: vec![],
    };
    let res = run_comparison_analysis(&make(), &make(), &vec![]);
    assert!(res.files.is_empty());
    assert_eq!(res.changes_summary.patch_totals.coverage_ratio(), None);
}

#[test]
fn calculate_diff_restricts_to_added_lines() {
    let report = Report {
        report_files: vec![(
            "file1.go".to_string(),
            ReportFile::new(vec![
                create_line_for_test(1, Coverage::Hit),
                (2, hit_and_half_line()),
                create_line_for_test(3, Coverage::Miss),
            ]),
        )],
        session_mapping: unit_and_integration(),
    };
    let diff: DiffInput = vec![
        (
            "file1.go".to_string(),
            ("changed".to_string(), None, vec![((1, 0, 1, 3), markers(&["+", "+", "+"]))]),
        ),
        (
            "absent.go".to_string(),
            ("new".to_string(), None, vec![((1, 0, 1, 1), markers(&["+"]))]),
        ),
    ];
    let all = FilterAnalyzer::new(None, None);
    let (totals, per_file) = all.calculate_diff(&report, diff.clone());
    assert_eq!(per_file.len(), 1);
    assert_eq!(per_file[0].0, "file1.go");
    assert_eq!(per_file[0].1.lines_with_hits, vec![1, 2]);
    assert_eq!(per_file[0].1.lines_with_misses, vec![3]);
    assert!(per_file[0].1.lines_with_partials.is_empty());
    assert_eq!((totals.files, totals.lines, totals.hits), (1, 3, 2));
    let integration = FilterAnalyzer::new(None, Some(vec!["integration".to_string()]));
    let (t2, per_file2) = integration.calculate_diff(&report, diff);
    assert_eq!(per_file2[0].1.lines_with_partials, vec![2]);
    assert!(per_file2[0].1.lines_with_hits.is_empty());
    assert_eq!((t2.lines, t2.partials), (1, 1));
}

#[test]
fn it_calculates_impacted_endpoints_correctly() {
    let v: ProfilingData = ProfilingData {
        groups: vec![SingleGroupProfilingData {
            count: 10,
            group_name: "GET /data".to_string(),
            files: vec![SingleFileProfilingData {
                filename: "file1.go".to_string(),
                ln_ex_ct: vec![(1, 10), (2, 8)],
            }],
        }],
    };
    let first_file_head = ReportFile::new(vec![
        create_line_for_test(1, Coverage::Hit),
        (2, hit_and_half_line()),
    ]);
    let first_file_base = ReportFile::new(vec![
        create_line_for_test(1, Coverage::Miss),
        (2, hit_and_half_line()),
    ]);
    let head_report = Report {
        report_files: vec![
            ("file1.go".to_string(), first_file_head),
            ("file_p.py".to_string(), ReportFile::new(vec![])),
        ],
        session_mapping: unit_and_integration(),
    };
    let base_report = Report {
        report_files: vec![
            ("file1.go".to_string(), first_file_base),
            ("file_p.py".to_string(), ReportFile::new(vec![])),
        ],
        session_mapping: unit_and_integration(),
    };
    let diffinput: DiffInput = vec![(
        "file1.go".to_string(),
        (
            "changed".to_string(),
            None,
            vec![((1, 1, 1, 1), markers(&["-", "+"]))],
        ),
    )];
    let res = v.find_impacted_endpoints(&base_report, &head_report, diffinput);
    assert_eq!(res.len(), 1);
    assert_eq!(res[0].group_name, "GET /data");
    assert_eq!(res[0].files.len(), 1);
    assert_eq!(res[0].files[0].filename, "file1.go".to_string());
    assert_eq!(res[0].files[0].impacted_base_lines, vec![1]);
}
