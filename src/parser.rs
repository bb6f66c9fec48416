//! The chunks format: one record per line, files separated by a marker line.

use crate::cov::{reduced_fraction, Coverage, Fraction};
use crate::json::{decode_json, json_of_text, JsonValue};
use crate::line::{Complexity, CoverageType, LineSession, ReportLine};
use crate::file::{lines_sorted, ReportFile};
use crate::report::Report;
use crate::text::{bounded_int_text, chars_of, parse_i64, same_chars, split_lines, text_lines};
use vstd::prelude::*;

verus! {

/// Why a chunks text was refused.
#[derive(Debug, Clone, Copy, PartialEq, Eq, Structural)]
pub enum ParsingError {
    UnexpectedValue,
}

/// One decoded line of the chunks text.
#[derive(Debug)]
pub enum LineType {
    Content(ReportLine),
    Emptyline,
    Separator,
    Details,
    NoFile,
}

/// A decoded line as plain values.
pub enum LineRecord {
    Content(Coverage, CoverageType, Seq<LineSession>, Option<Complexity>),
    Emptyline,
    Separator,
    Details,
    NoFile,
}

impl LineType {
    pub open spec fn model(self) -> LineRecord {
        match self {
            LineType::Content(l) => LineRecord::Content(
                l.coverage,
                l.coverage_type,
                l.sessions@,
                l.complexity,
            ),
            LineType::Emptyline => LineRecord::Emptyline,
            LineType::Separator => LineRecord::Separator,
            LineType::Details => LineRecord::Details,
            LineType::NoFile => LineRecord::NoFile,
        }
    }
}

pub open spec fn i32_text(t: Seq<char>) -> Option<int> {
    bounded_int_text(t, i32::MIN as int, i32::MAX as int)
}

pub open spec fn i64_text(t: Seq<char>) -> Option<int> {
    bounded_int_text(t, i64::MIN as int, i64::MAX as int)
}

pub open spec fn nonzero_digit(c: char) -> bool {
    49 <= (c as u32) <= 57
}

/// Some digit before any exponent marker is not zero.
pub open spec fn mantissa_nonzero(t: Seq<char>) -> bool {
    exists|i: int|
        0 <= i < t.len() && nonzero_digit(t[i]) && forall|k: int|
            0 <= k < i ==> #[trigger] t[k] != 'e' && t[k] != 'E'
}

/// A number text stands for a value above zero.
pub open spec fn number_positive(t: Seq<char>) -> bool {
    !(t.len() > 0 && t[0] == '-') && mantissa_nonzero(t)
}

/// A number: an integer above 0 is Hit, -1 is Ignore, other integers Miss;
/// a number that is not an integer of `i64` is Hit when above zero, else
/// Miss.
pub open spec fn number_coverage(t: Seq<char>) -> Coverage {
    match i64_text(t) {
        Some(n) => if n > 0 {
            Coverage::Hit
        } else if n == -1 {
            Coverage::Ignore
        } else {
            Coverage::Miss
        },
        None => if number_positive(t) {
            Coverage::Hit
        } else {
            Coverage::Miss
        },
    }
}

/// Where `c` first occurs in `s`.
pub open spec fn first_index_of(s: Seq<char>, c: char) -> Option<int>
    decreases s.len(),
{
    if s.len() == 0 {
        None
    } else if s[0] == c {
        Some(0)
    } else {
        match first_index_of(s.drop_first(), c) {
            Some(i) => Some(i + 1),
            None => None,
        }
    }
}

/// `n/d`: equal parts are Hit, no part Miss, a proper fraction Partial in
/// lowest terms; anything else is refused.
pub open spec fn fraction_coverage(n: int, d: int) -> Result<Coverage, ParsingError> {
    if n == d {
        Ok(Coverage::Hit)
    } else if n == 0 {
        Ok(Coverage::Miss)
    } else if 0 < n < d {
        Ok(Coverage::Partial(reduced_fraction(n, d)))
    } else {
        Err(ParsingError::UnexpectedValue)
    }
}

/// A string: `"n/d"` (the text up to the next `/` for `d`), or an integer,
/// Hit above 0 and Miss otherwise.
pub open spec fn string_coverage(s: Seq<char>) -> Result<Coverage, ParsingError> {
    match first_index_of(s, '/') {
        Some(p) => {
            let rest = s.skip(p + 1);
            let den = match first_index_of(rest, '/') {
                Some(q) => rest.take(q),
                None => rest,
            };
            match (i32_text(s.take(p)), i32_text(den)) {
                (Some(n), Some(d)) => fraction_coverage(n, d),
                _ => Err(ParsingError::UnexpectedValue),
            }
        },
        None => match i32_text(s) {
            Some(v) => Ok(
                if v > 0 {
                    Coverage::Hit
                } else {
                    Coverage::Miss
                },
            ),
            None => Err(ParsingError::UnexpectedValue),
        },
    }
}

/// The coverage that a JSON value stands for.
pub open spec fn coverage_of(v: JsonValue) -> Result<Coverage, ParsingError> {
    match v {
        JsonValue::Number(t) => Ok(number_coverage(t@)),
        JsonValue::Str(s) => string_coverage(s@),
        JsonValue::Null => Ok(Coverage::Ignore),
        JsonValue::Bool(b) => if b {
            Ok(Coverage::Partial(reduced_fraction(1, 2)))
        } else {
            Err(ParsingError::UnexpectedValue)
        },
        _ => Err(ParsingError::UnexpectedValue),
    }
}

/// `null` is Standard, `"m"` Method, `"b"` Branch.
pub open spec fn coverage_type_of(v: JsonValue) -> Result<CoverageType, ParsingError> {
    match v {
        JsonValue::Str(s) => if s@ == seq!['m'] {
            Ok(CoverageType::Method)
        } else if s@ == seq!['b'] {
            Ok(CoverageType::Branch)
        } else {
            Err(ParsingError::UnexpectedValue)
        },
        JsonValue::Null => Ok(CoverageType::Standard),
        _ => Err(ParsingError::UnexpectedValue),
    }
}

/// A JSON integer within `i32`.
pub open spec fn int32_of(v: JsonValue) -> Option<int> {
    match v {
        JsonValue::Number(t) => i32_text(t@),
        _ => None,
    }
}

/// An integer is a single complexity, a pair of integers a total one,
/// `null` none.
pub open spec fn complexity_of(v: JsonValue) -> Result<Option<Complexity>, ParsingError> {
    match v {
        JsonValue::Number(t) => match i32_text(t@) {
            Some(x) => Ok(Some(Complexity::SingleComplexity(x as i32))),
            None => Err(ParsingError::UnexpectedValue),
        },
        JsonValue::Array(a) => if a@.len() >= 2 && int32_of(a@[0]) is Some && int32_of(a@[1]) is Some {
            Ok(
                Some(
                    Complexity::TotalComplexity(
                        (int32_of(a@[0])->0 as i32, int32_of(a@[1])->0 as i32),
                    ),
                ),
            )
        } else {
            Err(ParsingError::UnexpectedValue)
        },
        JsonValue::Null => Ok(None),
        _ => Err(ParsingError::UnexpectedValue),
    }
}

/// `[id, coverage, _, _, complexity]`; a missing coverage is `null`.
pub open spec fn session_of(v: JsonValue) -> Result<LineSession, ParsingError> {
    match v {
        JsonValue::Array(e) => if e@.len() >= 1 && int32_of(e@[0]) is Some {
            let cov = coverage_of(
                if e@.len() > 1 {
                    e@[1]
                } else {
                    JsonValue::Null
                },
            );
            let cx = if e@.len() > 4 {
                complexity_of(e@[4])
            } else {
                Ok(None)
            };
            match (cov, cx) {
                (Ok(c), Ok(x)) => Ok(
                    LineSession { id: int32_of(e@[0])->0 as i32, coverage: c, complexity: x },
                ),
                _ => Err(ParsingError::UnexpectedValue),
            }
        } else {
            Err(ParsingError::UnexpectedValue)
        },
        _ => Err(ParsingError::UnexpectedValue),
    }
}

pub open spec fn sessions_of(ss: Seq<JsonValue>) -> Result<Seq<LineSession>, ParsingError>
    decreases ss.len(),
{
    if ss.len() == 0 {
        Ok(Seq::empty())
    } else {
        match (sessions_of(ss.drop_last()), session_of(ss.last())) {
            (Ok(p), Ok(x)) => Ok(p.push(x)),
            _ => Err(ParsingError::UnexpectedValue),
        }
    }
}

/// `[coverage, type?, [sessions...]?, _, complexity?]`, `null` for a file
/// without coverage, an object for a file header.
pub open spec fn record_of_json(v: JsonValue) -> Result<LineRecord, ParsingError> {
    match v {
        JsonValue::Null => Ok(LineRecord::NoFile),
        JsonValue::Object(_) => Ok(LineRecord::Details),
        JsonValue::Array(a) => {
            let n = a@.len();
            let sessions = if n > 2 {
                match a@[2] {
                    JsonValue::Array(ss) => sessions_of(ss@),
                    _ => Err(ParsingError::UnexpectedValue),
                }
            } else {
                Ok(Seq::empty())
            };
            let cov = if n > 0 {
                coverage_of(a@[0])
            } else {
                Err(ParsingError::UnexpectedValue)
            };
            let ct = if n > 1 {
                coverage_type_of(a@[1])
            } else {
                Ok(CoverageType::Standard)
            };
            let cx = if n > 4 {
                complexity_of(a@[4])
            } else {
                Ok(None)
            };
            match (sessions, cov, ct, cx) {
                (Ok(s), Ok(c), Ok(t), Ok(x)) => Ok(LineRecord::Content(c, t, s, x)),
                _ => Err(ParsingError::UnexpectedValue),
            }
        },
        _ => Err(ParsingError::UnexpectedValue),
    }
}

/// The line that separates two files.
pub open spec fn separator_text() -> Seq<char> {
    "<<<<< end_of_chunk >>>>>"@
}

/// What one line of the chunks text stands for.
pub open spec fn record_of_text(l: Seq<char>) -> Result<LineRecord, ParsingError> {
    if l.len() == 0 {
        Ok(LineRecord::Emptyline)
    } else if l == separator_text() {
        Ok(LineRecord::Separator)
    } else {
        match json_of_text(l) {
            Some(v) => record_of_json(v),
            None => Err(ParsingError::UnexpectedValue),
        }
    }
}

pub open spec fn result_model(r: Result<LineType, ParsingError>) -> Result<LineRecord, ParsingError> {
    match r {
        Ok(t) => Ok(t.model()),
        Err(e) => Err(e),
    }
}

/// The first `c` in `s[from..]`, as an index of `s`.
fn find_char(s: &Vec<char>, from: usize, c: char) -> (r: Option<usize>)
    requires
        from <= s@.len(),
    ensures
        r matches Some(k) ==> from <= k < s@.len(),
        match first_index_of(s@.subrange(from as int, s@.len() as int), c) {
            Some(i) => r matches Some(k) && k == i + from,
            None => r is None,
        },
{
    let mut i: usize = s.len();
    let ghost n = s@.len() as int;
    let mut found: Option<usize> = None;
    proof {
        assert(s@.subrange(n, n) =~= Seq::<char>::empty());
    }
    while i > from
        invariant
            from <= i <= n,
            n == s@.len(),
            found matches Some(k) ==> i <= k < n,
            match first_index_of(s@.subrange(i as int, n), c) {
                Some(k) => found matches Some(f) && f == k + i,
                None => found is None,
            },
        decreases i - from,
    {
        let ghost t = s@.subrange(i as int - 1, n);
        proof {
            assert(t.drop_first() =~= s@.subrange(i as int, n));
            assert(t[0] == s@[i as int - 1]);
        }
        if s[i - 1] == c {
            found = Some(i - 1);
        }
        i = i - 1;
    }
    found
}

proof fn lemma_i32_within_i64(t: Seq<char>)
    ensures
        i32_text(t) == match i64_text(t) {
            Some(v) => if i32::MIN <= v <= i32::MAX {
                Some(v)
            } else {
                None
            },
            None => None,
        },
{
}

fn parse_i32(s: &Vec<char>, lo: usize, hi: usize) -> (r: Option<i32>)
    requires
        lo <= hi <= s@.len(),
    ensures
        match i32_text(s@.subrange(lo as int, hi as int)) {
            Some(v) => r == Some(v as i32),
            None => r is None,
        },
{
    proof {
        lemma_i32_within_i64(s@.subrange(lo as int, hi as int));
    }
    match parse_i64(s, lo, hi) {
        Some(v) => if v >= i32::MIN as i64 && v <= i32::MAX as i64 {
            Some(v as i32)
        } else {
            None
        },
        None => None,
    }
}

fn is_positive_number(t: &Vec<char>) -> (r: bool)
    ensures
        r == number_positive(t@),
{
    if t.len() > 0 && t[0] == '-' {
        return false;
    }
    let mut i: usize = 0;
    while i < t.len()
        invariant
            0 <= i <= t@.len(),
            !(t@.len() > 0 && t@[0] == '-'),
            forall|k: int| 0 <= k < i ==> #[trigger] t@[k] != 'e' && t@[k] != 'E',
            forall|k: int| 0 <= k < i ==> !nonzero_digit(#[trigger] t@[k]),
        decreases t@.len() - i,
    {
        let c = t[i];
        if c == 'e' || c == 'E' {
            proof {
                assert forall|j: int| 0 <= j < t@.len() && nonzero_digit(t@[j]) implies !(
                forall|k: int| 0 <= k < j ==> #[trigger] t@[k] != 'e' && t@[k] != 'E') by {
                    assert(j > i || j < i);
                    if j > i {
                        assert(t@[i as int] == 'e' || t@[i as int] == 'E');
                    }
                }
            }
            return false;
        }
        let code = c as u32;
        if code >= 49 && code <= 57 {
            proof {
                assert(nonzero_digit(t@[i as int]));
                assert(0 <= i < t@.len() && nonzero_digit(t@[i as int]) && forall|k: int|
                    0 <= k < i ==> #[trigger] t@[k] != 'e' && t@[k] != 'E');
            }
            return true;
        }
        proof {
            assert(!nonzero_digit(t@[i as int]));
        }
        i = i + 1;
    }
    false
}

/// The coverage that a JSON value stands for (see `coverage_of`).
pub fn parse_coverage(line: &JsonValue) -> (r: Result<Coverage, ParsingError>)
    ensures
        r == coverage_of(*line),
{
    match line {
        JsonValue::Number(t) => {
            let n = t.len();
            proof {
                assert(t@.subrange(0, n as int) == t@);
            }
            let parsed = parse_i64(t, 0, n);
            proof {
                assert(i64_text(t@) == bounded_int_text(t@.subrange(0, n as int), i64::MIN as int, i64::MAX as int));
            }
            match parsed {
                Some(number) => {
                    assert(i64_text(t@) == Some(number as int));
                    if number > 0 {
                        Ok(Coverage::Hit)
                    } else if number == -1 {
                        Ok(Coverage::Ignore)
                    } else {
                        Ok(Coverage::Miss)
                    }
                },
                None => {
                    if is_positive_number(t) {
                        Ok(Coverage::Hit)
                    } else {
                        Ok(Coverage::Miss)
                    }
                },
            }
        },
        JsonValue::Str(s) => {
            let n = s.len();
            proof {
                assert(s@.subrange(0, n as int) == s@);
            }
            match find_char(s, 0, '/') {
                Some(p) => {
                    let found = find_char(s, p + 1, '/');
                    let q = match found {
                        Some(q) => q,
                        None => n,
                    };
                    proof {
                        let rest = s@.skip(p + 1);
                        assert(rest =~= s@.subrange(p + 1, n as int));
                        match first_index_of(rest, '/') {
                            Some(k) => {
                                assert(q == k + p + 1);
                                assert(rest.take(k) =~= s@.subrange(p + 1, q as int));
                            },
                            None => {
                                assert(rest =~= s@.subrange(p + 1, q as int));
                            },
                        }
                        assert(s@.take(p as int) =~= s@.subrange(0, p as int));
                    }
                    let num = parse_i32(s, 0, p);
                    let den = parse_i32(s, p + 1, q);
                    match (num, den) {
                        (Some(num), Some(den)) => {
                            if num == den {
                                Ok(Coverage::Hit)
                            } else if num == 0 {
                                Ok(Coverage::Miss)
                            } else if 0 < num && num < den {
                                Ok(Coverage::Partial(Fraction::new(num, den)))
                            } else {
                                Err(ParsingError::UnexpectedValue)
                            }
                        },
                        _ => Err(ParsingError::UnexpectedValue),
                    }
                },
                None => match parse_i32(s, 0, n) {
                    Some(val) => if val > 0 {
                        Ok(Coverage::Hit)
                    } else {
                        Ok(Coverage::Miss)
                    },
                    None => Err(ParsingError::UnexpectedValue),
                },
            }
        },
        JsonValue::Array(_) => Err(ParsingError::UnexpectedValue),
        JsonValue::Null => Ok(Coverage::Ignore),
        JsonValue::Bool(b) => {
            if *b {
                Ok(Coverage::Partial(Fraction::new(1, 2)))
            } else {
                Err(ParsingError::UnexpectedValue)
            }
        },
        JsonValue::Object(_) => Err(ParsingError::UnexpectedValue),
    }
}

fn single_char_is(s: &Vec<char>, c: char) -> (r: bool)
    ensures
        r == (s@ == seq![c]),
{
    if s.len() == 1 && s[0] == c {
        assert(s@ =~= seq![c]);
        true
    } else {
        false
    }
}

/// The kind of a line (see `coverage_type_of`).
pub fn parse_coverage_type(val: &JsonValue) -> (r: Result<CoverageType, ParsingError>)
    ensures
        r == coverage_type_of(*val),
{
    match val {
        JsonValue::Str(v) => {
            if single_char_is(v, 'm') {
                return Ok(CoverageType::Method);
            }
            if single_char_is(v, 'b') {
                return Ok(CoverageType::Branch);
            }
            Err(ParsingError::UnexpectedValue)
        },
        JsonValue::Null => Ok(CoverageType::Standard),
        _ => Err(ParsingError::UnexpectedValue),
    }
}

fn parse_int32(v: &JsonValue) -> (r: Option<i32>)
    ensures
        match int32_of(*v) {
            Some(x) => r == Some(x as i32),
            None => r is None,
        },
{
    match v {
        JsonValue::Number(t) => {
            proof {
                assert(t@.subrange(0, t@.len() as int) == t@);
            }
            parse_i32(t, 0, t.len())
        },
        _ => None,
    }
}

/// The complexity of a line or a session (see `complexity_of`).
pub fn parse_complexity(val: &JsonValue) -> (r: Result<Option<Complexity>, ParsingError>)
    ensures
        r == complexity_of(*val),
{
    match val {
        JsonValue::Number(_) => match parse_int32(val) {
            Some(x) => Ok(Some(Complexity::SingleComplexity(x))),
            None => Err(ParsingError::UnexpectedValue),
        },
        JsonValue::Array(a) => {
            if a.len() < 2 {
                return Err(ParsingError::UnexpectedValue);
            }
            match (parse_int32(&a[0]), parse_int32(&a[1])) {
                (Some(x), Some(y)) => Ok(Some(Complexity::TotalComplexity((x, y)))),
                _ => Err(ParsingError::UnexpectedValue),
            }
        },
        JsonValue::Null => Ok(None),
        _ => Err(ParsingError::UnexpectedValue),
    }
}

fn parse_session(el: &JsonValue) -> (r: Result<LineSession, ParsingError>)
    ensures
        r == session_of(*el),
{
    match el {
        JsonValue::Array(e) => {
            if e.len() < 1 {
                return Err(ParsingError::UnexpectedValue);
            }
            let id = match parse_int32(&e[0]) {
                Some(id) => id,
                None => return Err(ParsingError::UnexpectedValue),
            };
            let null = JsonValue::Null;
            let coverage = parse_coverage(
                if e.len() > 1 {
                    &e[1]
                } else {
                    &null
                },
            );
            let complexity = if e.len() > 4 {
                parse_complexity(&e[4])
            } else {
                Ok(None)
            };
            match (coverage, complexity) {
                (Ok(c), Ok(x)) => Ok(LineSession { id, coverage: c, complexity: x }),
                _ => Err(ParsingError::UnexpectedValue),
            }
        },
        _ => Err(ParsingError::UnexpectedValue),
    }
}

fn parse_sessions(ss: &Vec<JsonValue>) -> (r: Result<Vec<LineSession>, ParsingError>)
    ensures
        match sessions_of(ss@) {
            Ok(s) => r matches Ok(v) && v@ == s,
            Err(e) => r == Err::<Vec<LineSession>, ParsingError>(e),
        },
{
    let mut out: Vec<LineSession> = Vec::new();
    let mut i: usize = 0;
    while i < ss.len()
        invariant
            0 <= i <= ss@.len(),
            sessions_of(ss@.take(i as int)) == Ok::<Seq<LineSession>, ParsingError>(out@),
        decreases ss@.len() - i,
    {
        proof {
            assert(ss@.take(i as int + 1).drop_last() == ss@.take(i as int));
            assert(ss@.take(i as int + 1).last() == ss@[i as int]);
        }
        match parse_session(&ss[i]) {
            Ok(x) => out.push(x),
            Err(_) => {
                proof {
                    lemma_sessions_err(ss@, i as int + 1);
                }
                return Err(ParsingError::UnexpectedValue);
            },
        }
        i = i + 1;
    }
    proof {
        assert(ss@.take(ss@.len() as int) == ss@);
    }
    Ok(out)
}

proof fn lemma_sessions_err(ss: Seq<JsonValue>, k: int)
    requires
        0 <= k <= ss.len(),
        sessions_of(ss.take(k)) is Err,
    ensures
        sessions_of(ss) == Err::<Seq<LineSession>, ParsingError>(ParsingError::UnexpectedValue),
    decreases ss.len() - k,
{
    if k < ss.len() {
        assert(ss.take(k + 1).drop_last() == ss.take(k));
        lemma_sessions_err(ss, k + 1);
    } else {
        assert(ss.take(k) == ss);
        if ss.len() > 0 {
        }
    }
}

/// What one line of the chunks text stands for (see `record_of_text`).
pub fn parse_line_chars(line: &Vec<char>) -> (r: Result<LineType, ParsingError>)
    ensures
        result_model(r) == record_of_text(line@),
{
    if line.len() == 0 {
        return Ok(LineType::Emptyline);
    }
    let sep = chars_of("<<<<< end_of_chunk >>>>>");
    if same_chars(line, &sep) {
        return Ok(LineType::Separator);
    }
    let value = match decode_json(line) {
        Some(v) => v,
        None => return Err(ParsingError::UnexpectedValue),
    };
    match value {
        JsonValue::Null => Ok(LineType::NoFile),
        JsonValue::Object(_) => Ok(LineType::Details),
        JsonValue::Array(array_data) => {
            let n = array_data.len();
            let sessions = if n > 2 {
                match &array_data[2] {
                    JsonValue::Array(ss) => parse_sessions(ss),
                    _ => Err(ParsingError::UnexpectedValue),
                }
            } else {
                Ok(Vec::new())
            };
            let coverage = if n > 0 {
                parse_coverage(&array_data[0])
            } else {
                Err(ParsingError::UnexpectedValue)
            };
            let coverage_type = if n > 1 {
                parse_coverage_type(&array_data[1])
            } else {
                Ok(CoverageType::Standard)
            };
            let complexity = if n > 4 {
                parse_complexity(&array_data[4])
            } else {
                Ok(None)
            };
            match (sessions, coverage, coverage_type, complexity) {
                (Ok(s), Ok(c), Ok(t), Ok(x)) => Ok(
                    LineType::Content(
                        ReportLine { coverage: c, coverage_type: t, sessions: s, complexity: x },
                    ),
                ),
                _ => Err(ParsingError::UnexpectedValue),
            }
        },
        _ => Err(ParsingError::UnexpectedValue),
    }
}

/// What one line of the chunks text stands for (see `record_of_text`).
pub fn parse_line(line: &str) -> (r: Result<LineType, ParsingError>)
    ensures
        result_model(r) == record_of_text(line@),
{
    let chars = chars_of(line);
    parse_line_chars(&chars)
}

/// A covered line as plain values.
pub type LineModel = (Coverage, CoverageType, Seq<LineSession>, Option<Complexity>);

pub open spec fn line_model(l: ReportLine) -> LineModel {
    (l.coverage, l.coverage_type, l.sessions@, l.complexity)
}

/// A file as plain values: its name and its numbered lines.
pub type FileModel = (Seq<char>, Seq<(i32, LineModel)>);

pub open spec fn report_model(files: Seq<(String, ReportFile)>) -> Seq<FileModel> {
    files.map_values(
        |e: (String, ReportFile)|
            (e.0@, e.1.lines@.map_values(|p: (i32, ReportLine)| (p.0, line_model(p.1)))),
    )
}

/// The file name given to slot `k` (the last entry naming that slot).
pub open spec fn slot_name(names: Seq<(String, i32)>, k: int) -> Option<Seq<char>>
    decreases names.len(),
{
    if names.len() == 0 {
        None
    } else if names.last().1 == k {
        Some(names.last().0@)
    } else {
        slot_name(names.drop_last(), k)
    }
}

/// The state of the assembly pass: the files so far, the lines of the open
/// file (none when the slot holds no file), the slot index, and the number
/// of the next line.
pub struct Assembly {
    pub files: Seq<FileModel>,
    pub cur: Option<Seq<(i32, LineModel)>>,
    pub slot: int,
    pub count: int,
}

pub open spec fn init_assembly() -> Assembly {
    Assembly { files: Seq::empty(), cur: None, slot: 0, count: 1 }
}

/// The files once the open slot is closed: it is kept when it holds a file
/// and has a name.
pub open spec fn close_slot(names: Seq<(String, i32)>, st: Assembly) -> Seq<FileModel> {
    match (st.cur, slot_name(names, st.slot)) {
        (Some(c), Some(n)) => st.files.push((n, c)),
        _ => st.files,
    }
}

/// One record of the assembly pass. Every record but a header, a separator
/// and a file-less marker takes one line number; a separator closes the slot
/// and restarts the numbering at 1.
pub open spec fn assemble_step(names: Seq<(String, i32)>, st: Assembly, rec: LineRecord) -> Assembly {
    match rec {
        LineRecord::Separator => Assembly {
            files: close_slot(names, st),
            cur: None,
            slot: st.slot + 1,
            count: 1,
        },
        LineRecord::Emptyline => Assembly {
            files: st.files,
            cur: st.cur,
            slot: st.slot,
            count: st.count + 1,
        },
        LineRecord::Details => Assembly {
            files: st.files,
            cur: Some(Seq::empty()),
            slot: st.slot,
            count: st.count,
        },
        LineRecord::NoFile => Assembly { files: st.files, cur: None, slot: st.slot, count: st.count },
        LineRecord::Content(c, t, s, x) => Assembly {
            files: st.files,
            cur: match st.cur {
                Some(v) => Some(v.push((st.count as i32, (c, t, s, x)))),
                None => None,
            },
            slot: st.slot,
            count: st.count + 1,
        },
    }
}

pub open spec fn assemble(names: Seq<(String, i32)>, recs: Seq<LineRecord>) -> Assembly
    decreases recs.len(),
{
    if recs.len() == 0 {
        init_assembly()
    } else {
        assemble_step(names, assemble(names, recs.drop_last()), recs.last())
    }
}

/// The files that a sequence of records describes.
pub open spec fn assembled_files(names: Seq<(String, i32)>, recs: Seq<LineRecord>) -> Seq<FileModel> {
    close_slot(names, assemble(names, recs))
}

/// The records of all lines, or an error when one line is refused.
pub open spec fn records_of(lines: Seq<Seq<char>>) -> Result<Seq<LineRecord>, ParsingError>
    decreases lines.len(),
{
    if lines.len() == 0 {
        Ok(Seq::empty())
    } else {
        match (records_of(lines.drop_last()), record_of_text(lines.last())) {
            (Ok(p), Ok(x)) => Ok(p.push(x)),
            _ => Err(ParsingError::UnexpectedValue),
        }
    }
}

pub open spec fn record_models(recs: Seq<LineType>) -> Seq<LineRecord> {
    recs.map_values(|t: LineType| t.model())
}

/// Each file name names one slot.
pub open spec fn filenames_unique(names: Seq<(String, i32)>) -> bool {
    forall|i: int, j: int| 0 <= i < j < names.len() ==> names[i].0@ != names[j].0@
}

pub open spec fn session_ids_unique(m: Seq<(i32, Vec<String>)>) -> bool {
    forall|i: int, j: int| 0 <= i < j < m.len() ==> m[i].0 != m[j].0
}

proof fn lemma_slot_name_entry(names: Seq<(String, i32)>, k: int)
    ensures
        slot_name(names, k) matches Some(n) ==> exists|i: int|
            0 <= i < names.len() && names[i].0@ == n && names[i].1 == k,
    decreases names.len(),
{
    if names.len() > 0 {
        if names.last().1 == k {
            assert(names[names.len() - 1].0@ == names.last().0@);
        } else {
            lemma_slot_name_entry(names.drop_last(), k);
            if slot_name(names, k) is Some {
                let n = slot_name(names, k)->0;
                let i = choose|i: int|
                    0 <= i < names.drop_last().len() && names.drop_last()[i].0@ == n
                        && names.drop_last()[i].1 == k;
                assert(names[i] == names.drop_last()[i]);
            }
        }
    }
}

/// With unique file names, two slots never get the same name.
proof fn lemma_slot_name_injective(names: Seq<(String, i32)>, k1: int, k2: int)
    requires
        filenames_unique(names),
        slot_name(names, k1) is Some,
        slot_name(names, k1) == slot_name(names, k2),
    ensures
        k1 == k2,
{
    lemma_slot_name_entry(names, k1);
    lemma_slot_name_entry(names, k2);
    let n = slot_name(names, k1)->0;
    let i1 = choose|i: int| 0 <= i < names.len() && names[i].0@ == n && names[i].1 == k1;
    let i2 = choose|i: int| 0 <= i < names.len() && names[i].0@ == n && names[i].1 == k2;
    if i1 < i2 {
        assert(names[i1].0@ != names[i2].0@);
    } else if i2 < i1 {
        assert(names[i2].0@ != names[i1].0@);
    }
}

fn slot_name_exec(names: &Vec<(String, i32)>, k: i32) -> (r: Option<String>)
    ensures
        match slot_name(names@, k as int) {
            Some(n) => r matches Some(s) && s@ == n,
            None => r is None,
        },
{
    let mut i: usize = names.len();
    proof {
        assert(names@.take(names@.len() as int) == names@);
    }
    while i > 0
        invariant
            0 <= i <= names@.len(),
            slot_name(names@, k as int) == slot_name(names@.take(i as int), k as int),
        decreases i,
    {
        proof {
            assert(names@.take(i as int).drop_last() == names@.take(i as int - 1));
            assert(names@.take(i as int).last() == names@[i as int - 1]);
        }
        if names[i - 1].1 == k {
            return Some(names[i - 1].0.clone());
        }
        i = i - 1;
    }
    None
}

/// The assembly state reached by the executable pass is well formed: file
/// names distinct and each naming an earlier slot, lines ascending.
pub open spec fn named_before(names: Seq<(String, i32)>, slot: int, n: Seq<char>) -> bool {
    exists|k: int| 0 <= k < slot && #[trigger] slot_name(names, k) == Some(n)
}

pub open spec fn assembly_ok(names: Seq<(String, i32)>, st: Assembly) -> bool {
    &&& forall|j: int|
        0 <= j < st.files.len() ==> named_before(names, st.slot, #[trigger] st.files[j].0)
    &&& forall|a: int, b: int| 0 <= a < b < st.files.len() ==> st.files[a].0 != st.files[b].0
    &&& st.count >= 1
    &&& st.slot >= 0
}

pub open spec fn model_lines(v: Seq<(i32, ReportLine)>) -> Seq<(i32, LineModel)> {
    v.map_values(|p: (i32, ReportLine)| (p.0, line_model(p.1)))
}

proof fn lemma_step_files(names: Seq<(String, i32)>, st: Assembly, rec: LineRecord)
    requires
        st.count >= 1,
    ensures
        ({
            let st2 = assemble_step(names, st, rec);
            &&& st2.slot >= st.slot
            &&& st2.count >= 1
            &&& st2.files == st.files || (st2.files.len() == st.files.len() + 1
                && st2.files.drop_last() == st.files && slot_name(names, st.slot) == Some(
                st2.files.last().0,
            ) && st2.slot > st.slot)
        }),
{
    if let LineRecord::Separator = rec {
        if st.cur is Some && slot_name(names, st.slot) is Some {
            let st2 = assemble_step(names, st, rec);
            assert(st2.files.drop_last() == st.files);
        }
    }
}

proof fn lemma_assembly_ok_step(names: Seq<(String, i32)>, st: Assembly, st2: Assembly)
    requires
        filenames_unique(names),
        assembly_ok(names, st),
        st2.slot >= st.slot,
        st2.count >= 1,
        st2.files == st.files || (st2.files.len() == st.files.len() + 1 && st2.files.drop_last()
            == st.files && slot_name(names, st.slot) == Some(st2.files.last().0) && st2.slot
            > st.slot),
    ensures
        assembly_ok(names, st2),
{
    assert forall|j: int| 0 <= j < st2.files.len() implies named_before(names, st2.slot, #[trigger] st2.files[j].0) by {
        if j < st.files.len() {
            if st2.files != st.files {
                assert(st2.files.drop_last()[j] == st2.files[j]);
            }
            assert(st2.files[j] == st.files[j]);
            assert(named_before(names, st.slot, st.files[j].0));
            let k = choose|k: int| 0 <= k < st.slot && #[trigger] slot_name(names, k) == Some(st.files[j].0);
            assert(0 <= k < st2.slot && slot_name(names, k) == Some(st2.files[j].0));
        } else {
            assert(j == st2.files.len() - 1);
            assert(0 <= st.slot < st2.slot && slot_name(names, st.slot) == Some(st2.files[j].0));
        }
    }
    assert forall|a: int, b: int| 0 <= a < b < st2.files.len() implies st2.files[a].0 != st2.files[b].0 by {
        if b < st.files.len() {
            assert(st2.files[a] == st.files[a]);
            assert(st2.files[b] == st.files[b]);
        } else {
            assert(st2.files.drop_last()[a] == st2.files[a]);
            assert(st2.files[a] == st.files[a]);
            assert(b == st2.files.len() - 1);
            assert(named_before(names, st.slot, st.files[a].0));
            let k = choose|k: int| 0 <= k < st.slot && #[trigger] slot_name(names, k) == Some(st.files[a].0);
            if st2.files[a].0 == st2.files[b].0 {
                lemma_slot_name_injective(names, k, st.slot);
            }
        }
    }
    assert(st2.count >= 1);
    assert(st2.slot >= 0);
}

/// Builds the report from the decoded records, in order: the sequential
/// pass that numbers lines and splits files.
pub fn assemble_report(
    filenames: Vec<(String, i32)>,
    records: Vec<LineType>,
    session_mapping: Vec<(i32, Vec<String>)>,
) -> (r: Report)
    requires
        filenames_unique(filenames@),
        session_ids_unique(session_mapping@),
        records@.len() < i32::MAX - 1,
    ensures
        report_model(r.report_files@) == assembled_files(filenames@, record_models(records@)),
        r.session_mapping@ == session_mapping@,
        r.wf(),
{
    let ghost names = filenames@;
    let ghost recs = record_models(records@);
    let n = records.len();
    let mut rev: Vec<LineType> = Vec::new();
    let mut src = records;
    while src.len() > 0
        invariant
            src@.len() + rev@.len() == n,
            forall|i: int| 0 <= i < src@.len() ==> #[trigger] src@[i] == records@[i],
            forall|i: int| 0 <= i < rev@.len() ==> #[trigger] rev@[i] == records@[n - 1 - i],
            n == records@.len(),
        decreases src@.len(),
    {
        let x = src.pop().unwrap();
        rev.push(x);
    }
    let mut files: Vec<(String, ReportFile)> = Vec::new();
    let mut cur: Option<Vec<(i32, ReportLine)>> = None;
    let mut slot: i32 = 0;
    let mut count: i32 = 1;
    let mut i: usize = 0;
    while rev.len() > 0
        invariant
            names == filenames@,
            filenames_unique(names),
            n == records@.len(),
            n < i32::MAX - 1,
            recs == record_models(records@),
            i + rev@.len() == n,
            forall|k: int| 0 <= k < rev@.len() ==> #[trigger] rev@[k] == records@[n - 1 - k],
            report_model(files@) == assemble(names, recs.take(i as int)).files,
            assemble(names, recs.take(i as int)).slot == slot,
            assemble(names, recs.take(i as int)).count == count,
            match cur {
                Some(v) => assemble(names, recs.take(i as int)).cur == Some(model_lines(v@)),
                None => assemble(names, recs.take(i as int)).cur is None,
            },
            assembly_ok(names, assemble(names, recs.take(i as int))),
            forall|k: int| 0 <= k < files@.len() ==> (#[trigger] files@[k]).1.wf(),
            cur matches Some(v) ==> lines_sorted(v@) && forall|k: int|
                0 <= k < v@.len() ==> (#[trigger] v@[k]).0 < count,
            1 <= count <= i + 1,
            0 <= slot <= i,
        decreases rev@.len(),
    {
        let rec = rev.pop().unwrap();
        let ghost st = assemble(names, recs.take(i as int));
        proof {
            assert(rec == records@[i as int]);
            assert(recs.take(i as int + 1).drop_last() == recs.take(i as int));
            assert(recs.take(i as int + 1).last() == rec.model());
        }
        match rec {
            LineType::Separator => {
                let done = cur;
                cur = None;
                match done {
                    Some(lines) => match slot_name_exec(&filenames, slot) {
                        Some(name) => {
                            let ghost before = files@;
                            files.push((name, ReportFile { lines }));
                            proof {
                                assert(report_model(files@) =~= report_model(before).push(
                                    (name@, model_lines(lines@)),
                                ));
                            }
                        },
                        None => {},
                    },
                    None => {},
                }
                slot = slot + 1;
                count = 1;
            },
            LineType::Emptyline => {
                count = count + 1;
            },
            LineType::Details => {
                cur = Some(Vec::new());
                proof {
                    assert(model_lines(Seq::<(i32, ReportLine)>::empty()) =~= Seq::<(i32, LineModel)>::empty());
                }
            },
            LineType::NoFile => {
                cur = None;
            },
            LineType::Content(report_line) => {
                let ghost lm = line_model(report_line);
                cur = match cur {
                    Some(v) => {
                        let mut v = v;
                        let ghost before = v@;
                        v.push((count, report_line));
                        proof {
                            assert(model_lines(v@) =~= model_lines(before).push((count, lm)));
                        }
                        Some(v)
                    },
                    None => None,
                };
                count = count + 1;
            },
        }
        proof {
            let st2 = assemble(names, recs.take(i as int + 1));
            lemma_step_files(names, st, rec.model());
            lemma_assembly_ok_step(names, st, st2);
        }
        i = i + 1;
    }
    proof {
        assert(recs.take(n as int) == recs);
    }
    let done = cur;
    match done {
        Some(lines) => match slot_name_exec(&filenames, slot) {
            Some(name) => {
                let ghost before = files@;
                files.push((name, ReportFile { lines }));
                proof {
                    assert(report_model(files@) =~= report_model(before).push((name@, model_lines(lines@))));
                }
            },
            None => {},
        },
        None => {},
    }
    proof {
        let st = assemble(names, recs);
        let fin = Assembly { files: assembled_files(names, recs), cur: None, slot: st.slot + 1, count: 1 };
        lemma_step_files(names, st, LineRecord::Separator);
        assert(assemble_step(names, st, LineRecord::Separator).files == fin.files);
        lemma_assembly_ok_step(names, st, fin);
        assert forall|a: int, b: int| 0 <= a < b < files@.len() implies files@[a].0@ != files@[b].0@ by {
            assert(report_model(files@)[a].0 == files@[a].0@);
            assert(report_model(files@)[b].0 == files@[b].0@);
        }
    }
    Report { report_files: files, session_mapping }
}

/// Decodes every line of a chunks text, in order, stopping at the first
/// refused one.
pub fn parse_records(chunks: &str) -> (r: Result<Vec<LineType>, ParsingError>)
    ensures
        r matches Ok(v) ==> records_of(text_lines(chunks@)) == Ok::<Seq<LineRecord>, ParsingError>(
            record_models(v@),
        ) && v@.len() == text_lines(chunks@).len(),
        r is Err ==> records_of(text_lines(chunks@)) is Err,
{
    let chars = chars_of(chunks);
    let lines = split_lines(&chars);
    let ghost ls = text_lines(chunks@);
    let mut out: Vec<LineType> = Vec::new();
    let mut i: usize = 0;
    proof {
        assert(ls.take(0) =~= Seq::<Seq<char>>::empty());
        assert(record_models(out@) =~= Seq::<LineRecord>::empty());
    }
    while i < lines.len()
        invariant
            lines@.map_values(|l: Vec<char>| l@) == ls,
            ls == text_lines(chunks@),
            0 <= i <= lines@.len(),
            out@.len() == i,
            records_of(ls.take(i as int)) == Ok::<Seq<LineRecord>, ParsingError>(record_models(out@)),
        decreases lines@.len() - i,
    {
        proof {
            assert(ls.take(i as int + 1).drop_last() == ls.take(i as int));
            assert(ls.take(i as int + 1).last() == lines@[i as int]@);
        }
        match parse_line_chars(&lines[i]) {
            Ok(t) => {
                let ghost before = out@;
                out.push(t);
                proof {
                    assert(record_models(out@) =~= record_models(before).push(t.model()));
                }
            },
            Err(e) => {
                proof {
                    assert(record_of_text(lines@[i as int]@) is Err);
                    assert(records_of(ls.take(i as int + 1)) is Err);
                    lemma_records_err(ls, i as int + 1);
                    assert(records_of(ls) is Err);
                    assert(ls == text_lines(chunks@));
                }
                return Err(e);
            },
        }
        i = i + 1;
    }
    proof {
        assert(ls.take(ls.len() as int) == ls);
    }
    Ok(out)
}

proof fn lemma_records_err(ls: Seq<Seq<char>>, k: int)
    requires
        0 <= k <= ls.len(),
        records_of(ls.take(k)) is Err,
    ensures
        records_of(ls) is Err,
    decreases ls.len() - k,
{
    if k < ls.len() {
        assert(ls.take(k + 1).drop_last() == ls.take(k));
        lemma_records_err(ls, k + 1);
    } else {
        assert(ls.take(k) == ls);
    }
}

/// The files that a chunks text describes, or none when a line is refused.
pub open spec fn parsed_files(names: Seq<(String, i32)>, text: Seq<char>) -> Option<Seq<FileModel>> {
    match records_of(text_lines(text)) {
        Ok(recs) => Some(assembled_files(names, recs)),
        Err(_) => None,
    }
}

/// Parses a chunks text into a report: `filenames` gives each file name its
/// slot, and a slot without a file or without a name is left out.
pub fn parse_report_from_str(
    filenames: Vec<(String, i32)>,
    chunks: &str,
    session_mapping: Vec<(i32, Vec<String>)>,
) -> (r: Result<Report, ParsingError>)
    requires
        filenames_unique(filenames@),
        session_ids_unique(session_mapping@),
        text_lines(chunks@).len() < i32::MAX - 1,
    ensures
        match r {
            Ok(rep) => parsed_files(filenames@, chunks@) == Some(report_model(rep.report_files@))
                && rep.session_mapping@ == session_mapping@ && rep.wf(),
            Err(_) => parsed_files(filenames@, chunks@) is None,
        },
{
    let records = parse_records(chunks)?;
    Ok(assemble_report(filenames, records, session_mapping))
}

} // verus!
