use rustyribs::cov::{Coverage, Fraction};
use rustyribs::file::{FileTotals, ReportFile};
use rustyribs::line::{CoverageType, LineSession, ReportLine};
use rustyribs::line::Complexity;

fn create_line_for_test(line_number: i32, coverage: Coverage) -> (i32, ReportLine) {
    (
        line_number,
        ReportLine {
            coverage: coverage.clone(),
            coverage_type: CoverageType::Standard,
            sessions: vec![LineSession {
                id: 0,
                coverage: coverage,
                complexity: None,
            }],
            complexity: None,
        },
    )
}

#[test]
fn joining_coverage_works() {
    let v = Coverage::join_coverages(vec![
        &Coverage::Miss,
        &Coverage::Hit,
        &Coverage::Partial(Fraction::new(3, 10)),
    ]);
    assert_eq!(v, Coverage::Hit);
    let k = Coverage::join_coverages(vec![&Coverage::Miss, &Coverage::Partial(Fraction::new(3, 10))]);
    assert_eq!(k, Coverage::Partial(Fraction::new(3, 10)));
    assert_eq!(Coverage::join_coverages(vec![]), Coverage::Ignore);
    assert_eq!(
        Coverage::join_coverages(vec![&Coverage::Ignore, &Coverage::Miss]),
        Coverage::Miss
    );
    assert_eq!(
        Coverage::join_coverages(vec![&Coverage::Ignore, &Coverage::Ignore]),
        Coverage::Ignore
    );
    assert_eq!(
        Coverage::join_coverages(vec![&Coverage::Miss, &Coverage::Ignore]),
        Coverage::Miss
    );
    assert_eq!(
        Coverage::join_coverages(vec![&Coverage::Miss, &Coverage::Ignore, &Coverage::Hit]),
        Coverage::Hit
    );
}

#[test]
fn join_laws_on_values() {
    let half = Coverage::Partial(Fraction::new(1, 2));
    let same_half = Coverage::Partial(Fraction::new(2, 4));
    let third = Coverage::Partial(Fraction::new(1, 3));
    assert_eq!(half, same_half);
    assert_eq!(Coverage::join_coverages(vec![&half, &half]), half);
    assert_eq!(
        Coverage::join_coverages(vec![&half, &third]),
        Coverage::join_coverages(vec![&third, &half])
    );
    assert_eq!(Coverage::join_coverages(vec![&half, &third]), half);
    assert_eq!(
        Coverage::join_coverages(vec![&Coverage::Ignore, &third]),
        Coverage::join_coverages(vec![&third])
    );
    assert_eq!(
        Coverage::join_coverages(vec![&Coverage::Hit, &half, &Coverage::Miss]),
        Coverage::Hit
    );
    assert_eq!(
        Coverage::join_coverages(vec![&Coverage::Miss, &Coverage::Ignore]),
        Coverage::join_coverages(vec![&Coverage::Ignore, &Coverage::Miss])
    );
}

#[test]
fn fraction_is_reduced() {
    let f = Fraction::new(6, 8);
    assert_eq!((f.numer, f.denom), (3, 4));
    let g = Fraction::new(3, 10);
    assert_eq!((g.numer, g.denom), (3, 10));
}

#[test]
fn coverage_char_codes() {
    assert_eq!(Coverage::Hit.as_char(), 'h');
    assert_eq!(Coverage::Miss.as_char(), 'm');
    assert_eq!(Coverage::Partial(Fraction::new(1, 2)).as_char(), 'p');
    assert_eq!(Coverage::Ignore.as_char(), 'i');
}

#[test]
fn filter_by_session_ids_works() {
    let a = ReportLine {
        coverage: Coverage::Hit,
        coverage_type: CoverageType::Standard,
        sessions: vec![
            LineSession {
                id: 0,
                coverage: Coverage::Miss,
                complexity: None,
            },
            LineSession {
                id: 1,
                coverage: Coverage::Ignore,
                complexity: None,
            },
            LineSession {
                id: 2,
                coverage: Coverage::Partial(Fraction::new(3, 10)),
                complexity: None,
            },
            LineSession {
                id: 3,
                coverage: Coverage::Hit,
                complexity: None,
            },
        ],
        complexity: None,
    };
    let res_only_zero = a.filter_by_session_ids(&vec![0]).unwrap();
    assert_eq!(res_only_zero.coverage, Coverage::Miss);
    assert_eq!(res_only_zero.coverage_type, CoverageType::Standard);
    assert_eq!(res_only_zero.sessions.len(), 1);
    assert!(res_only_zero.complexity.is_none());
    assert!(a.filter_by_session_ids(&vec![1]).is_none());
    let res_only_two = a.filter_by_session_ids(&vec![2]).unwrap();
    assert_eq!(res_only_two.coverage, Coverage::Partial(Fraction::new(3, 10)));
    assert_eq!(res_only_two.coverage_type, CoverageType::Standard);
    assert_eq!(res_only_two.sessions.len(), 1);
    assert!(res_only_two.complexity.is_none());
    let res_only_three = a.filter_by_session_ids(&vec![3]).unwrap();
    assert_eq!(res_only_three.coverage, Coverage::Hit);
    assert_eq!(res_only_three.coverage_type, CoverageType::Standard);
    assert_eq!(res_only_three.sessions.len(), 1);
    assert!(res_only_three.complexity.is_none());
    let res_zero_and_one = a.filter_by_session_ids(&vec![0, 1]).unwrap();
    assert_eq!(res_zero_and_one.coverage, Coverage::Miss);
    assert_eq!(res_zero_and_one.coverage_type, CoverageType::Standard);
    assert_eq!(res_zero_and_one.sessions.len(), 2);
    assert!(res_zero_and_one.complexity.is_none());
    let res_two_and_three = a.filter_by_session_ids(&vec![2, 3]).unwrap();
    assert_eq!(res_two_and_three.coverage, Coverage::Hit);
    assert_eq!(res_two_and_three.coverage_type, CoverageType::Standard);
    assert_eq!(res_two_and_three.sessions.len(), 2);
    assert!(res_two_and_three.complexity.is_none());
    let res_one_and_two_and_three_and_zero = a.filter_by_session_ids(&vec![0, 1, 2, 3]).unwrap();
    assert_eq!(res_one_and_two_and_three_and_zero.coverage, Coverage::Hit);
    assert_eq!(
        res_one_and_two_and_three_and_zero.coverage_type,
        CoverageType::Standard
    );
    assert_eq!(res_one_and_two_and_three_and_zero.sessions.len(), 4);
    assert!(res_one_and_two_and_three_and_zero.complexity.is_none());
    assert!(a.filter_by_session_ids(&vec![5]).is_none());
    assert!(a.filter_by_session_ids(&vec![1, 5]).is_none());
}

#[test]
fn filtered_line_joins_complexity() {
    let a = ReportLine {
        coverage: Coverage::Hit,
        coverage_type: CoverageType::Branch,
        sessions: vec![
            LineSession {
                id: 0,
                coverage: Coverage::Miss,
                complexity: Some(Complexity::SingleComplexity(4)),
            },
            LineSession {
                id: 1,
                coverage: Coverage::Hit,
                complexity: Some(Complexity::TotalComplexity((2, 7))),
            },
        ],
        complexity: None,
    };
    let both = a.filter_by_session_ids(&vec![0, 1]).unwrap();
    assert_eq!(both.coverage, Coverage::Hit);
    assert_eq!(both.coverage_type, CoverageType::Branch);
    match both.complexity {
        Some(Complexity::TotalComplexity((u, t))) => assert_eq!((u, t), (4, 7)),
        _ => panic!("expected a total complexity"),
    }
    let first = a.filter_by_session_ids(&vec![0]).unwrap();
    match first.complexity {
        Some(Complexity::SingleComplexity(v)) => assert_eq!(v, 4),
        _ => panic!("expected a single complexity"),
    }
}

#[test]
fn from_lines_empty() {
    let expected_result = FileTotals {
        hits: 0,
        misses: 0,
        partials: 0,
        branches: 0,
        sessions: 0,
        complexity: 0,
        complexity_total: 0,
        methods: 0,
    };
    let result = FileTotals::from_lines(vec![]);
    assert_eq!(expected_result, result);
    assert_eq!(result.get_line_count(), 0);
}

#[test]
fn from_lines_some() {
    let expected_result = FileTotals {
        hits: 1,
        misses: 1,
        partials: 1,
        branches: 1,
        sessions: 0,
        complexity: 0,
        complexity_total: 0,
        methods: 0,
    };
    let result = FileTotals::from_lines(vec![
        &ReportLine {
            coverage: Coverage::Hit,
            coverage_type: CoverageType::Standard,
            sessions: vec![],
            complexity: None,
        },
        &ReportLine {
            coverage: Coverage::Miss,
            coverage_type: CoverageType::Branch,
            sessions: vec![],
            complexity: None,
        },
        &ReportLine {
            coverage: Coverage::Partial(Fraction::new(3, 10)),
            coverage_type: CoverageType::Standard,
            sessions: vec![],
            complexity: None,
        },
        &ReportLine {
            coverage: Coverage::Ignore,
            coverage_type: CoverageType::Standard,
            sessions: vec![],
            complexity: None,
        },
    ]);
    assert_eq!(expected_result, result);
    assert_eq!(result.get_line_count(), 3);
    assert_eq!(result.get_lines(), result.hits + result.misses + result.partials);
}

#[test]
fn get_eof_is_correct() {
    let file = ReportFile::new(vec![
        create_line_for_test(101, Coverage::Hit),
        create_line_for_test(103, Coverage::Miss),
    ]);
    assert_eq!(file.get_eof(), 104);
}

#[test]
fn eof_of_empty_file_is_zero() {
    let file = ReportFile::new(vec![]);
    assert_eq!(file.get_eof(), 0);
}

#[test]
fn new_file_sorts_and_keeps_last_duplicate() {
    let file = ReportFile::new(vec![
        create_line_for_test(9, Coverage::Hit),
        create_line_for_test(2, Coverage::Miss),
        create_line_for_test(9, Coverage::Miss),
    ]);
    let numbers: Vec<i32> = file.lines.iter().map(|(n, _)| *n).collect();
    assert_eq!(numbers, vec![2, 9]);
    assert_eq!(file.get_line(9).unwrap().coverage, Coverage::Miss);
    assert!(file.get_line(3).is_none());
    assert_eq!(file.get_eof(), 10);
}

#[test]
fn coverage_values_order_variants() {
    assert_eq!(Coverage::Ignore.get_value(), (-1, 1));
    assert_eq!(Coverage::Miss.get_value(), (0, 1));
    assert_eq!(Coverage::Partial(Fraction::new(2, 6)).get_value(), (1, 3));
    assert_eq!(Coverage::Hit.get_value(), (1, 1));
}
