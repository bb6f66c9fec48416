//! Report-wide totals and the report itself.

use crate::file::{
    counts_fit, counts_of, fits_i32, line_values, lines_fit, Counts, FileTotals, ReportFile,
};
use vstd::prelude::*;

verus! {

/// Report-wide counters as mathematical integers, `sessions` aside.
pub struct TotalsModel {
    pub files: int,
    pub lines: int,
    pub hits: int,
    pub misses: int,
    pub partials: int,
    pub branches: int,
    pub methods: int,
    pub complexity: int,
    pub complexity_total: int,
}

pub open spec fn zero_model() -> TotalsModel {
    TotalsModel {
        files: 0,
        lines: 0,
        hits: 0,
        misses: 0,
        partials: 0,
        branches: 0,
        methods: 0,
        complexity: 0,
        complexity_total: 0,
    }
}

pub open spec fn count_lines(c: Counts) -> int {
    c.hits + c.misses + c.partials
}

/// Adds a file's counters, and one file, unless no line of it counts.
pub open spec fn add_up_model(m: TotalsModel, c: Counts) -> TotalsModel {
    if count_lines(c) == 0 {
        m
    } else {
        TotalsModel {
            files: m.files + 1,
            lines: m.lines + count_lines(c),
            hits: m.hits + c.hits,
            misses: m.misses + c.misses,
            partials: m.partials + c.partials,
            branches: m.branches + c.branches,
            methods: m.methods + c.methods,
            complexity: m.complexity + c.complexity,
            complexity_total: m.complexity_total + c.complexity_total,
        }
    }
}

/// `add_up` applied to each of `cs` in turn, from zero.
pub open spec fn sum_up(cs: Seq<Counts>) -> TotalsModel
    decreases cs.len(),
{
    if cs.len() == 0 {
        zero_model()
    } else {
        add_up_model(sum_up(cs.drop_last()), cs.last())
    }
}

pub open spec fn model_fits(m: TotalsModel) -> bool {
    &&& fits_i32(m.files)
    &&& fits_i32(m.lines)
    &&& fits_i32(m.hits)
    &&& fits_i32(m.misses)
    &&& fits_i32(m.partials)
    &&& fits_i32(m.branches)
    &&& fits_i32(m.methods)
    &&& fits_i32(m.complexity)
    &&& fits_i32(m.complexity_total)
}

/// Adding up `cs` one by one never leaves `i32`.
pub open spec fn sums_fit(cs: Seq<Counts>) -> bool {
    &&& forall|i: int| 0 <= i < cs.len() ==> counts_fit(#[trigger] cs[i])
    &&& forall|k: int| 0 <= k <= cs.len() ==> model_fits(#[trigger] sum_up(cs.take(k)))
}

pub open spec fn is_nonempty(c: Counts) -> bool {
    count_lines(c) != 0
}

/// Totals over many files.
#[derive(Debug, Clone, Copy, PartialEq, Eq, Structural)]
pub struct ReportTotals {
    pub files: i32,
    pub lines: i32,
    pub hits: i32,
    pub misses: i32,
    pub partials: i32,
    pub branches: i32,
    pub sessions: i32,
    pub complexity: i32,
    pub complexity_total: i32,
    pub methods: i32,
}

impl ReportTotals {
    pub open spec fn model(self) -> TotalsModel {
        TotalsModel {
            files: self.files as int,
            lines: self.lines as int,
            hits: self.hits as int,
            misses: self.misses as int,
            partials: self.partials as int,
            branches: self.branches as int,
            methods: self.methods as int,
            complexity: self.complexity as int,
            complexity_total: self.complexity_total as int,
        }
    }

    /// All counters zero.
    pub fn new() -> (r: ReportTotals)
        ensures
            r.model() == zero_model(),
            r.sessions == 0,
    {
        ReportTotals {
            files: 0,
            lines: 0,
            hits: 0,
            misses: 0,
            partials: 0,
            branches: 0,
            sessions: 0,
            complexity: 0,
            complexity_total: 0,
            methods: 0,
        }
    }

    /// Adds the counters of a file that has counted lines, and counts it as
    /// one more file; a file without counted lines changes nothing.
    /// `sessions` is left as it is.
    pub fn add_up(&mut self, other: &FileTotals)
        requires
            counts_fit(other.counts()),
            model_fits(add_up_model(old(self).model(), other.counts())),
        ensures
            final(self).model() == add_up_model(old(self).model(), other.counts()),
            final(self).sessions == old(self).sessions,
    {
        if !other.is_empty() {
            self.files = self.files + 1;
            self.lines = self.lines + other.get_line_count();
            self.hits = self.hits + other.hits;
            self.misses = self.misses + other.misses;
            self.partials = self.partials + other.partials;
            self.branches = self.branches + other.branches;
            self.complexity = self.complexity + other.complexity;
            self.complexity_total = self.complexity_total + other.complexity_total;
            self.methods = self.methods + other.methods;
        }
    }
}

pub open spec fn digit_char(d: int) -> char {
    if d == 0 {
        '0'
    } else if d == 1 {
        '1'
    } else if d == 2 {
        '2'
    } else if d == 3 {
        '3'
    } else if d == 4 {
        '4'
    } else if d == 5 {
        '5'
    } else if d == 6 {
        '6'
    } else if d == 7 {
        '7'
    } else if d == 8 {
        '8'
    } else {
        '9'
    }
}

/// `n` in decimal, without leading zeros.
pub open spec fn decimal_text(n: nat) -> Seq<char>
    decreases n,
{
    if n < 10 {
        seq![digit_char(n as int)]
    } else {
        decimal_text(n / 10).push(digit_char((n % 10) as int))
    }
}

/// The last `width` decimal digits of `n`, with leading zeros.
pub open spec fn padded_text(n: nat, width: nat) -> Seq<char>
    decreases width,
{
    if width == 0 {
        Seq::empty()
    } else {
        padded_text(n / 10, (width - 1) as nat).push(digit_char((n % 10) as int))
    }
}

/// `10^7 * hits / lines` rounded to the nearest integer, halves up: the
/// percentage in units of 10^-5.
pub open spec fn scaled_percentage(hits: int, lines: int) -> int {
    (20_000_000 * hits + lines) / (2 * lines)
}

/// The coverage percentage as text: none without lines, "100" and "0" at
/// the ends, else the percentage with exactly five fractional digits.
pub open spec fn coverage_text(hits: int, lines: int) -> Option<Seq<char>> {
    if lines == 0 {
        None
    } else if hits == lines {
        Some(seq!['1', '0', '0'])
    } else if hits == 0 {
        Some(seq!['0'])
    } else {
        let s = scaled_percentage(hits, lines);
        Some(decimal_text((s / 100_000) as nat) + seq!['.'] + padded_text((s % 100_000) as nat, 5))
    }
}

/// The scaled percentage is the integer nearest to `10^7 * hits / lines`.
pub proof fn lemma_scaled_percentage_nearest(hits: int, lines: int)
    requires
        0 <= hits,
        0 < lines,
    ensures
        -lines < 2 * (scaled_percentage(hits, lines) * lines - 10_000_000 * hits) <= lines,
{
    let s = scaled_percentage(hits, lines);
    let a = 20_000_000 * hits + lines;
    let b = 2 * lines;
    assert(a == s * b + a % b) by {
        vstd::arithmetic::div_mod::lemma_fundamental_div_mod(a, b);
    }
    assert(0 <= a % b < b) by {
        vstd::arithmetic::div_mod::lemma_mod_bound(a, b);
    }
    assert(s * b == 2 * (s * lines)) by (nonlinear_arith)
        requires
            b == 2 * lines,
    ;
}

/// Relies on std's `format!`: `{}` writes an unsigned integer in decimal and
/// `{:05}` writes one with leading zeros up to five digits.
#[verifier::external_body]
fn fixed_point_text(int_part: u64, frac: u64) -> (r: String)
    requires
        frac < 100_000,
    ensures
        r@ == decimal_text(int_part as nat) + seq!['.'] + padded_text(frac as nat, 5),
{
    format!("{}.{:05}", int_part, frac)
}

impl ReportTotals {
    /// The coverage percentage as text (see `coverage_text`).
    pub fn get_coverage(&self) -> (r: Option<String>)
        requires
            self.lines == 0 || (0 <= self.hits && 0 < self.lines),
        ensures
            match r {
                Some(t) => coverage_text(self.hits as int, self.lines as int) == Some(t@),
                None => coverage_text(self.hits as int, self.lines as int) is None,
            },
    {
        if self.lines == 0 {
            return None;
        }
        if self.hits == self.lines {
            let t = String::from_str("100");
            proof {
                reveal_strlit("100");
            }
            return Some(t);
        }
        if self.hits == 0 {
            let t = String::from_str("0");
            proof {
                reveal_strlit("0");
            }
            return Some(t);
        }
        let h = self.hits as u64;
        let l = self.lines as u64;
        let scaled = (20_000_000 * h + l) / (2 * l);
        Some(fixed_point_text(scaled / 100_000, scaled % 100_000))
    }

    /// The complexity, or none without lines.
    pub fn get_complexity(&self) -> (r: Option<i32>)
        ensures
            r == if self.lines == 0 {
                None
            } else {
                Some(self.complexity)
            },
    {
        if self.lines == 0 {
            return None;
        }
        Some(self.complexity)
    }
}

/// Whether `names` holds a string equal to `name`.
pub open spec fn names_contain(names: Seq<String>, name: Seq<char>) -> bool {
    exists|i: int| 0 <= i < names.len() && names[i]@ == name
}

/// Whether two lists of names share one.
pub open spec fn names_intersect(a: Seq<String>, b: Seq<String>) -> bool {
    exists|i: int| 0 <= i < a.len() && names_contain(b, #[trigger] a[i]@)
}

/// Whether `names` holds a string equal to `name`.
pub fn contains_name(names: &Vec<String>, name: &String) -> (r: bool)
    ensures
        r == names_contain(names@, name@),
{
    let mut i: usize = 0;
    while i < names.len()
        invariant
            0 <= i <= names@.len(),
            forall|k: int| 0 <= k < i ==> names@[k]@ != name@,
        decreases names@.len() - i,
    {
        if names[i] == *name {
            return true;
        }
        i = i + 1;
    }
    false
}

/// Whether two lists of names share one.
pub fn intersects(a: &Vec<String>, b: &Vec<String>) -> (r: bool)
    ensures
        r == names_intersect(a@, b@),
{
    let mut i: usize = 0;
    while i < a.len()
        invariant
            0 <= i <= a@.len(),
            forall|k: int| 0 <= k < i ==> !names_contain(b@, #[trigger] a@[k]@),
        decreases a@.len() - i,
    {
        if contains_name(b, &a[i]) {
            return true;
        }
        i = i + 1;
    }
    false
}

/// The sessions whose flags include one of `flags`, in mapping order.
pub open spec fn sessions_from_flags(m: Seq<(i32, Vec<String>)>, flags: Seq<String>) -> Seq<i32> {
    m.filter(|e: (i32, Vec<String>)| names_intersect(e.1@, flags)).map_values(
        |e: (i32, Vec<String>)| e.0,
    )
}

/// File names are pairwise different.
pub open spec fn names_unique(files: Seq<(String, ReportFile)>) -> bool {
    forall|i: int, j: int| 0 <= i < j < files.len() ==> files[i].0@ != files[j].0@
}

pub open spec fn has_file(files: Seq<(String, ReportFile)>, name: Seq<char>) -> bool {
    exists|i: int| 0 <= i < files.len() && files[i].0@ == name
}

/// The file named `name`, if any.
pub open spec fn find_file(files: Seq<(String, ReportFile)>, name: Seq<char>) -> Option<ReportFile> {
    if has_file(files, name) {
        Some(files[choose|i: int| 0 <= i < files.len() && files[i].0@ == name].1)
    } else {
        None
    }
}

pub open spec fn file_counts(files: Seq<(String, ReportFile)>) -> Seq<Counts> {
    files.map_values(|e: (String, ReportFile)| counts_of(line_values(e.1.lines@)))
}

/// A whole report: files by name, and the flags of each session.
#[derive(Debug)]
pub struct Report {
    pub report_files: Vec<(String, ReportFile)>,
    pub session_mapping: Vec<(i32, Vec<String>)>,
}

impl Report {
    /// File names and session ids are unique; every file is well formed.
    pub open spec fn wf(self) -> bool {
        &&& names_unique(self.report_files@)
        &&& forall|i: int| 0 <= i < self.report_files@.len() ==> (#[trigger] self.report_files@[i]).1.wf()
        &&& forall|i: int, j: int|
            0 <= i < j < self.session_mapping@.len() ==> self.session_mapping@[i].0 != self.session_mapping@[j].0
    }

    /// Every file's totals, and their sum, stay within `i32`.
    pub open spec fn totals_fit(self) -> bool {
        &&& forall|i: int|
            0 <= i < self.report_files@.len() ==> lines_fit(
                line_values((#[trigger] self.report_files@[i]).1.lines@),
            )
        &&& sums_fit(file_counts(self.report_files@))
        &&& self.session_mapping@.len() <= i32::MAX
    }

    /// The sessions whose flags include one of `flags`, in mapping order.
    pub fn get_sessions_from_flags(&self, flags: &Vec<String>) -> (r: Vec<i32>)
        ensures
            r@ == sessions_from_flags(self.session_mapping@, flags@),
    {
        let ghost pred = |e: (i32, Vec<String>)| names_intersect(e.1@, flags@);
        let ghost m = self.session_mapping@;
        let mut res: Vec<i32> = Vec::new();
        let mut i: usize = 0;
        while i < self.session_mapping.len()
            invariant
                m == self.session_mapping@,
                pred == (|e: (i32, Vec<String>)| names_intersect(e.1@, flags@)),
                0 <= i <= m.len(),
                res@ == m.take(i as int).filter(pred).map_values(|e: (i32, Vec<String>)| e.0),
            decreases m.len() - i,
        {
            let entry = &self.session_mapping[i];
            proof {
                assert(m.take(i as int + 1).drop_last() == m.take(i as int));
                assert(m.take(i as int + 1).last() == *entry);
                reveal(Seq::filter);
            }
            if intersects(&entry.1, flags) {
                res.push(entry.0);
                proof {
                    assert(res@ =~= m.take(i as int + 1).filter(pred).map_values(
                        |e: (i32, Vec<String>)| e.0,
                    ));
                }
            }
            i = i + 1;
        }
        proof {
            assert(m.take(m.len() as int) == m);
        }
        res
    }

    /// The file with exactly this name, if any.
    pub fn get_by_filename(&self, filename: &str) -> (r: Option<&ReportFile>)
        requires
            names_unique(self.report_files@),
        ensures
            match r {
                Some(f) => find_file(self.report_files@, filename@) == Some(*f),
                None => !has_file(self.report_files@, filename@),
            },
    {
        let target = String::from_str(filename);
        let mut i: usize = 0;
        while i < self.report_files.len()
            invariant
                target@ == filename@,
                names_unique(self.report_files@),
                0 <= i <= self.report_files@.len(),
                forall|k: int| 0 <= k < i ==> self.report_files@[k].0@ != filename@,
            decreases self.report_files@.len() - i,
        {
            if self.report_files[i].0 == target {
                proof {
                    let files = self.report_files@;
                    assert(has_file(files, filename@));
                    let c = choose|k: int| 0 <= k < files.len() && files[k].0@ == filename@;
                    assert(files[i as int].0@ == filename@);
                    if c > i {
                        assert(files[i as int].0@ != files[c].0@);
                    }
                    assert(c == i);
                }
                return Some(&self.report_files[i].1);
            }
            i = i + 1;
        }
        None
    }

    /// Totals over all files; `sessions` is the number of known sessions.
    pub fn get_simple_totals(&self) -> (r: ReportTotals)
        requires
            self.totals_fit(),
        ensures
            r.model() == sum_up(file_counts(self.report_files@)),
            r.sessions == self.session_mapping@.len(),
    {
        let ghost cs = file_counts(self.report_files@);
        let mut res = ReportTotals::new();
        let mut i: usize = 0;
        while i < self.report_files.len()
            invariant
                cs == file_counts(self.report_files@),
                self.totals_fit(),
                0 <= i <= cs.len(),
                res.model() == sum_up(cs.take(i as int)),
            decreases cs.len() - i,
        {
            let totals = self.report_files[i].1.get_totals();
            proof {
                assert(cs.take(i as int + 1).drop_last() == cs.take(i as int));
                assert(cs.take(i as int + 1).last() == cs[i as int]);
                assert(model_fits(sum_up(cs.take(i as int + 1))));
                assert(counts_fit(cs[i as int]));
            }
            res.add_up(&totals);
            i = i + 1;
        }
        proof {
            assert(cs.take(cs.len() as int) == cs);
        }
        res.sessions = self.session_mapping.len() as i32;
        res
    }
}

/// `T.files` after adding up a sequence is the number of non-empty ones.
pub proof fn lemma_files_count_nonempty(cs: Seq<Counts>)
    ensures
        sum_up(cs).files == cs.filter(|c: Counts| is_nonempty(c)).len(),
    decreases cs.len(),
{
    reveal(Seq::filter);
    if cs.len() > 0 {
        lemma_files_count_nonempty(cs.drop_last());
    }
}

} // verus!
