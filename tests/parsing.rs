use rustyribs::cov::{Coverage, Fraction};
use rustyribs::json::JsonValue;
use rustyribs::line::CoverageType;
use rustyribs::line::Complexity;
use rustyribs::parser::{parse_coverage, parse_line, parse_report_from_str, LineType, ParsingError};

const THREE_FILES: &str = "{}
[1, null, [[0, 1], [1, 0]]]


[1, null, [[0, 1], [1, 0]]]
[0, null, [[0, 0], [1, 0]]]
<<<<< end_of_chunk >>>>>
{}
[1, null, [[0, 1], [1, 0]]]


[1, null, [[0, 1], [1, 0]]]
[1, null, [[0, 1], [1, 0]]]


[1, null, [[0, 1], [1, 0]]]
[1, null, [[0, 1], [1, 0]]]


[1, null, [[0, 1], [1, 1]]]
[1, null, [[0, 1], [1, 1]]]
<<<<< end_of_chunk >>>>>
{}
[1, null, [[0, 1], [1, 0]]]
[1, null, [[0, 1], [1, 1]]]


[1, null, [[0, 1], [1, 1]]]
[1, null, [[0, 0], [1, 0]]]


[1, null, [[0, 1], [1, 0]]]
[1, null, [[0, 1], [1, 0]]]
[1, null, [[0, 1], [1, 0]]]
[1, null, [[0, 1], [1, 0]]]


[1, null, [[0, 1], [1, 0]]]
[0, null, [[0, 0], [1, 0]]]
";

fn three_names() -> Vec<(String, i32)> {
    vec![
        ("file1.go".to_string(), 0),
        ("file_two.go".to_string(), 1),
        ("file_iii.go".to_string(), 2),
    ]
}

fn json(text: &str) -> JsonValue {
    JsonValue::parse(text).unwrap()
}

#[test]
fn parser_it_adds_two() {
    let mut flags: Vec<(i32, Vec<String>)> = Vec::new();
    flags.push((1, ["flag_one".to_string()].to_vec()));
    flags.push((0, ["flag_three".to_string(), "flag_two".to_string()].to_vec()));
    let res = parse_report_from_str(three_names(), THREE_FILES, flags).expect("Unable to parse report");
    let calc = res.calculate_per_flag_totals();
    assert!(calc.iter().any(|(name, _)| name == "flag_one"));
    let calc_2 = res.get_simple_totals();
    assert_eq!(calc_2.get_coverage(), Some("90.00000".to_string()));
}

#[test]
fn parses_report_with_null_chunks() {
    let content = "{}
[1, null, [[0, 1], [1, 0]]]


[1, null, [[0, 1], [1, 0]]]
[0, null, [[0, 0], [1, 0]]]
<<<<< end_of_chunk >>>>>
null
<<<<< end_of_chunk >>>>>
{}
[1, null, [[0, 1], [1, 0]]]
[1, null, [[0, 1], [1, 1]]]


[1, null, [[0, 1], [1, 1]]]
[1, null, [[0, 0], [1, 0]]]


[1, null, [[0, 1], [1, 0]]]
[1, null, [[0, 1], [1, 0]]]
[1, null, [[0, 1], [1, 0]]]
[1, null, [[0, 1], [1, 0]]]


[1, null, [[0, 1], [1, 0]]]
[0, null, [[0, 0], [1, 0]]]
";
    let flags: Vec<(i32, Vec<String>)> = vec![
        (0, ["flag_three".to_string(), "flag_two".to_string()].to_vec()),
        (1, vec!["flag_one".to_string()]),
    ];
    let res = parse_report_from_str(three_names(), content, flags).expect("Unable to parse report");
    let calc_2 = res.get_simple_totals();
    assert_eq!(calc_2.get_coverage(), Some("84.61538".to_string()));
    assert_eq!(calc_2.files, 2);
    assert_eq!(calc_2.hits, 11);
    assert_eq!(calc_2.lines, 13);
    let involved_filenames: Vec<String> = res.report_files.iter().map(|(x, _)| x.to_string()).collect();
    assert_eq!(involved_filenames.len(), 2);
    assert_eq!(res.get_by_filename("file1.go").unwrap().get_totals().hits, 2);
    assert_eq!(res.get_by_filename("file1.go").unwrap().get_totals().misses, 1);
    assert_eq!(res.get_by_filename("file_iii.go").unwrap().get_totals().hits, 9);
    assert_eq!(res.get_by_filename("file_iii.go").unwrap().get_totals().misses, 1);
    assert!(involved_filenames.contains(&"file1.go".to_string()));
    assert!(involved_filenames.contains(&"file_iii.go".to_string()));
}

#[test]
fn parses_empty_report() {
    let filenames: Vec<(String, i32)> = Vec::new();
    let mut flags: Vec<(i32, Vec<String>)> = Vec::new();
    flags.push((1, ["flag_one".to_string()].to_vec()));
    flags.push((0, ["flag_three".to_string(), "flag_two".to_string()].to_vec()));
    let res = parse_report_from_str(filenames, "", flags).expect("Unable to parse report");
    assert_eq!(res.report_files.len(), 0);
    let calc = res.calculate_per_flag_totals();
    assert!(calc.is_empty());
    let calc_2 = res.get_simple_totals();
    assert_eq!(calc_2.get_coverage(), None);
}

#[test]
fn parse_line_simple_case() {
    let res = parse_line("[1, null, [[0, 1], [1, 0]]]").expect("Unable to parse line");
    match res {
        LineType::Content(l) => {
            assert_eq!(l.coverage, Coverage::Hit);
            assert_eq!(l.coverage_type, CoverageType::Standard);
        }
        _ => {
            panic!("Bad res");
        }
    }
}

#[test]
fn parse_line_huge_number_case() {
    let res = parse_line("[18446744073709551615, null, [[23, 18446744073709551615]]]")
        .expect("Unable to parse line");
    match res {
        LineType::Content(l) => {
            assert_eq!(l.coverage, Coverage::Hit);
            assert_eq!(l.coverage_type, CoverageType::Standard);
        }
        _ => {
            panic!("Bad res");
        }
    }
}

#[test]
fn parse_line_method_line() {
    let res = parse_line("[1, \"m\", [[0, 1], [1, 1]]]").expect("Unable to parse line");
    match res {
        LineType::Content(l) => {
            assert_eq!(l.coverage, Coverage::Hit);
            assert_eq!(l.coverage_type, CoverageType::Method);
        }
        _ => {
            panic!("Bad res");
        }
    }
}

#[test]
fn parse_line_unusual_zero_case() {
    let res = parse_line("[0.0, null, [[23, 18446744073709551615]]]").expect("Unable to parse line");
    match res {
        LineType::Content(l) => {
            assert_eq!(l.coverage, Coverage::Miss);
            assert_eq!(l.coverage_type, CoverageType::Standard);
        }
        _ => {
            panic!("Bad res");
        }
    }
}

#[test]
fn parse_coverage_unusual_numbers() {
    assert_eq!(
        Coverage::Miss,
        parse_coverage(&json("0.0")).expect("Unable to parse coverage")
    );
    assert_eq!(
        Coverage::Miss,
        parse_coverage(&json("0")).expect("Unable to parse coverage")
    );
    assert_eq!(
        Coverage::Ignore,
        parse_coverage(&json("-1")).expect("Unable to parse coverage")
    );
    assert_eq!(
        Coverage::Hit,
        parse_coverage(&json("0.5")).expect("Unable to parse coverage")
    );
    assert_eq!(
        Coverage::Hit,
        parse_coverage(&json("18446744073709551615")).expect("Unable to parse coverage")
    );
    assert_eq!(
        Coverage::Hit,
        parse_coverage(&json("18446744073709551699")).expect("Unable to parse coverage")
    );
}

#[test]
fn parse_line_boolean_case() {
    let res = parse_line("[true, \"b\", [[0, true, null, null, null]]]").expect("Unable to parse line");
    match res {
        LineType::Content(l) => {
            assert_eq!(l.coverage, Coverage::Partial(Fraction::new(1, 2)));
            assert_eq!(l.coverage_type, CoverageType::Branch);
        }
        _ => {
            panic!("Bad res");
        }
    }
}

#[test]
fn parse_line_empty_lines() {
    let res = parse_line("[null, \"b\", [[157, null]]]").expect("Unable to parse line");
    match res {
        LineType::Content(l) => {
            assert_eq!(l.coverage, Coverage::Ignore);
            assert_eq!(l.coverage_type, CoverageType::Branch);
        }
        _ => {
            panic!("Bad res");
        }
    }
}

#[test]
fn parse_line_bad_line() {
    let _res = parse_line("[1, \"b\", [[null, true, null, null, null]]]")
        .expect_err("Line should have thrown an error");
}

#[test]
fn parse_coverage_sample_different_fractions() {
    let actual_partial = parse_coverage(&json("\"1/2\"")).expect("should have parsed correctly");
    assert_eq!(actual_partial, Coverage::Partial(Fraction::new(1, 2)));
    let actual_hit = parse_coverage(&json("\"3/3\"")).expect("should have parsed correctly");
    assert_eq!(actual_hit, Coverage::Hit);
    let actual_miss = parse_coverage(&json("\"0/4\"")).expect("should have parsed correctly");
    assert_eq!(actual_miss, Coverage::Miss);
}

#[test]
fn parse_coverage_reduces_and_rejects() {
    assert_eq!(
        parse_coverage(&json("\"2/4\"")).unwrap(),
        Coverage::Partial(Fraction::new(1, 2))
    );
    let p = parse_coverage(&json("\"6/8\"")).unwrap();
    match p {
        Coverage::Partial(f) => assert_eq!((f.numer, f.denom), (3, 4)),
        _ => panic!("expected a partial"),
    }
    assert_eq!(parse_coverage(&json("\"5\"")).unwrap(), Coverage::Hit);
    assert_eq!(parse_coverage(&json("\"0\"")).unwrap(), Coverage::Miss);
    assert_eq!(parse_coverage(&json("7")).unwrap(), Coverage::Hit);
    assert_eq!(parse_coverage(&json("-3")).unwrap(), Coverage::Miss);
    assert_eq!(parse_coverage(&json("null")).unwrap(), Coverage::Ignore);
    assert_eq!(parse_coverage(&json("\"x/2\"")), Err(ParsingError::UnexpectedValue));
    assert_eq!(parse_coverage(&json("\"abc\"")), Err(ParsingError::UnexpectedValue));
    assert_eq!(parse_coverage(&json("false")), Err(ParsingError::UnexpectedValue));
    assert_eq!(parse_coverage(&json("[1]")), Err(ParsingError::UnexpectedValue));
    assert_eq!(parse_coverage(&json("{}")), Err(ParsingError::UnexpectedValue));
}

#[test]
fn parse_line_kinds() {
    assert!(matches!(parse_line(""), Ok(LineType::Emptyline)));
    assert!(matches!(parse_line("<<<<< end_of_chunk >>>>>"), Ok(LineType::Separator)));
    assert!(matches!(parse_line("{\"a\": 1}"), Ok(LineType::Details)));
    assert!(matches!(parse_line("null"), Ok(LineType::NoFile)));
    assert_eq!(parse_line("[1, \"x\"]").err(), Some(ParsingError::UnexpectedValue));
    assert_eq!(parse_line("[]").err(), Some(ParsingError::UnexpectedValue));
    assert_eq!(parse_line("not json").err(), Some(ParsingError::UnexpectedValue));
    assert_eq!(parse_line("3").err(), Some(ParsingError::UnexpectedValue));
    assert_eq!(
        parse_line("[1, null, [[0, 1]], null, \"2\"]").err(),
        Some(ParsingError::UnexpectedValue)
    );
}

#[test]
fn parse_line_complexity() {
    match parse_line("[1, null, [[0, 1, null, null, [2, 5]]], null, 3]").unwrap() {
        LineType::Content(l) => {
            assert!(matches!(l.complexity, Some(Complexity::SingleComplexity(3))));
            assert!(matches!(
                l.sessions[0].complexity,
                Some(Complexity::TotalComplexity((2, 5)))
            ));
        }
        _ => panic!("Bad res"),
    }
}

#[test]
fn parse_report_refuses_a_bad_line() {
    let content = "{}\n[1, null, [[0, 1]]]\n[1, \"q\"]\n";
    let res = parse_report_from_str(vec![("a.c".to_string(), 0)], content, vec![]);
    assert_eq!(res.err(), Some(ParsingError::UnexpectedValue));
}

#[test]
fn parse_report_numbers_lines_and_skips_unnamed_slots() {
    let content = "{}\n[1]\n\n[0]\n<<<<< end_of_chunk >>>>>\n{}\n[1]\r\n";
    let res = parse_report_from_str(vec![("a.c".to_string(), 0)], content, vec![]).unwrap();
    assert_eq!(res.report_files.len(), 1);
    let f = res.get_by_filename("a.c").unwrap();
    let numbers: Vec<i32> = f.lines.iter().map(|(n, _)| *n).collect();
    assert_eq!(numbers, vec![1, 3]);
    assert_eq!(f.get_line(3).unwrap().coverage, Coverage::Miss);
    assert!(res.get_by_filename("b.c").is_none());
}

#[test]
fn parsed_coverage_round_trips_through_char_codes() {
    let content = "{}\n[1]\n[0]\n[\"1/3\"]\n[-1]\n";
    let res = parse_report_from_str(vec![("a.c".to_string(), 0)], content, vec![]).unwrap();
    let f = res.get_by_filename("a.c").unwrap();
    let codes: String = f.lines.iter().map(|(_, l)| l.coverage.as_char()).collect();
    assert_eq!(codes, "hmpi");
}
