//! Totals and diff analyses restricted to some files and some flags.

use crate::cov::{join, Coverage};
use crate::diff::{
    get_exclusions_from_diff, only_on_head, segments_fit, sorted_seq, DiffInput, FileDiffAnalysis,
    FileDiffData,
};
use crate::file::{
    add_line, counts_fit, counts_of, filtered_counts_of, filtered_lines_fit, find_line,
    line_contrib, line_counts, line_values, lines_fit, zero_counts, add_counts, Counts, FileTotals,
    ReportFile,
};
use crate::line::{kept_sessions, session_coverages, sessions_complexity, ReportLine};
use crate::report::{
    file_counts, contains_name, find_file, has_file, model_fits, names_contain, sessions_from_flags, sum_up, sums_fit,
    Report, ReportTotals,
};
use vstd::prelude::*;

verus! {

/// Restricts queries to the files named in `files` and to the sessions that
/// carry one of `flags`; `None` means no restriction.
#[derive(Debug)]
pub struct FilterAnalyzer {
    pub files: Option<Vec<String>>,
    pub flags: Option<Vec<String>>,
}

/// A line as seen through the session filter `ids` (unchanged without one):
/// its coverage and what it adds to totals, or none when it is dropped.
pub open spec fn projected(l: ReportLine, ids: Option<Seq<i32>>) -> Option<(Coverage, Counts)> {
    match ids {
        None => Some((l.coverage, line_counts(l))),
        Some(ids) => {
            let kept = kept_sessions(l.sessions@, ids);
            let c = join(session_coverages(kept));
            if kept.len() == 0 || c == Coverage::Ignore {
                None
            } else {
                Some((c, line_contrib(c, l.coverage_type, sessions_complexity(kept))))
            }
        },
    }
}

pub open spec fn diff_line(
    lines: Seq<(i32, ReportLine)>,
    n: int,
    ids: Option<Seq<i32>>,
) -> Option<(Coverage, Counts)> {
    match find_line(lines, n) {
        None => None,
        Some(l) => projected(l, ids),
    }
}

/// The counters of the lines `ls` of a file, each seen through `ids`.
pub open spec fn diff_counts(lines: Seq<(i32, ReportLine)>, ls: Seq<i32>, ids: Option<Seq<i32>>) -> Counts
    decreases ls.len(),
{
    if ls.len() == 0 {
        zero_counts()
    } else {
        let prev = diff_counts(lines, ls.drop_last(), ids);
        match diff_line(lines, ls.last() as int, ids) {
            Some(p) => add_counts(prev, p.1),
            None => prev,
        }
    }
}

/// The lines of `ls` whose coverage, seen through `ids`, has code `k`.
pub open spec fn lines_with(
    lines: Seq<(i32, ReportLine)>,
    ls: Seq<i32>,
    ids: Option<Seq<i32>>,
    k: char,
) -> Seq<i32>
    decreases ls.len(),
{
    if ls.len() == 0 {
        Seq::empty()
    } else {
        let prev = lines_with(lines, ls.drop_last(), ids, k);
        match diff_line(lines, ls.last() as int, ids) {
            Some(p) => if p.0.spec_char() == k {
                prev.push(ls.last())
            } else {
                prev
            },
            None => prev,
        }
    }
}

pub open spec fn diff_counts_fit(lines: Seq<(i32, ReportLine)>, ls: Seq<i32>, ids: Option<Seq<i32>>) -> bool {
    forall|k: int| 0 <= k <= ls.len() ==> counts_fit(#[trigger] diff_counts(lines, ls.take(k), ids))
}

/// The head lines that a file's diff adds.
pub open spec fn added_lines(d: FileDiffData) -> Seq<i32> {
    sorted_seq(only_on_head(d.2@))
}

pub open spec fn opt_ids(s: Option<Vec<i32>>) -> Option<Seq<i32>> {
    match s {
        Some(v) => Some(v@),
        None => None,
    }
}

/// The lines of the file named `name`, or none.
pub open spec fn found_lines(files: Seq<(String, ReportFile)>, name: Seq<char>) -> Seq<(i32, ReportLine)> {
    match find_file(files, name) {
        Some(f) => f.lines@,
        None => Seq::empty(),
    }
}

/// `a` is the analysis of `lines` restricted to the lines that `d` adds.
pub open spec fn diff_analysis_matches(
    a: FileDiffAnalysis,
    lines: Seq<(i32, ReportLine)>,
    d: FileDiffData,
    ids: Option<Seq<i32>>,
) -> bool {
    let ls = added_lines(d);
    &&& a.summary.counts() == diff_counts(lines, ls, ids)
    &&& a.summary.sessions == 0
    &&& a.lines_with_hits@ == lines_with(lines, ls, ids, 'h')
    &&& a.lines_with_misses@ == lines_with(lines, ls, ids, 'm')
    &&& a.lines_with_partials@ == lines_with(lines, ls, ids, 'p')
}

proof fn lemma_filter_prefix<A>(s: Seq<A>, p: spec_fn(A) -> bool, i: int)
    requires
        0 <= i <= s.len(),
    ensures
        s.filter(p) == s.take(i).filter(p) + s.skip(i).filter(p),
{
    assert(s == s.take(i) + s.skip(i));
    Seq::filter_distributes_over_add(s.take(i), s.skip(i), p);
}

impl FilterAnalyzer {
    pub fn new(files: Option<Vec<String>>, flags: Option<Vec<String>>) -> (r: FilterAnalyzer)
        ensures
            r.files == files,
            r.flags == flags,
    {
        FilterAnalyzer { files, flags }
    }

    pub open spec fn includes(self, name: Seq<char>) -> bool {
        match self.files {
            Some(f) => names_contain(f@, name),
            None => true,
        }
    }

    /// The sessions selected by the flags, or none without flags.
    pub open spec fn session_filter(self, r: Report) -> Option<Seq<i32>> {
        match self.flags {
            Some(fl) => Some(sessions_from_flags(r.session_mapping@, fl@)),
            None => None,
        }
    }

    /// The counters of one file under the session filter.
    pub open spec fn counts_for(self, r: Report, f: ReportFile) -> Counts {
        match self.session_filter(r) {
            Some(ids) => filtered_counts_of(line_values(f.lines@), ids),
            None => counts_of(line_values(f.lines@)),
        }
    }

    pub open spec fn included_files(self, r: Report) -> Seq<(String, ReportFile)> {
        r.report_files@.filter(|e: (String, ReportFile)| self.includes(e.0@))
    }

    /// The counters of each included file, in report order.
    pub open spec fn file_counts_for(self, r: Report) -> Seq<Counts> {
        self.included_files(r).map_values(|e: (String, ReportFile)| self.counts_for(r, e.1))
    }

    /// Each included file's counters, and their sum, stay within `i32`.
    pub open spec fn totals_fit(self, r: Report) -> bool {
        &&& forall|i: int|
            0 <= i < r.report_files@.len() && self.includes((#[trigger] r.report_files@[i]).0@)
                ==> match self.session_filter(r) {
                Some(ids) => filtered_lines_fit(line_values(r.report_files@[i].1.lines@), ids),
                None => lines_fit(line_values(r.report_files@[i].1.lines@)),
            }
        &&& sums_fit(self.file_counts_for(r))
        &&& r.session_mapping@.len() <= i32::MAX
    }

    /// The diff entries to analyse: included, and present in the report.
    pub open spec fn diff_targets(self, r: Report, diff: Seq<(String, FileDiffData)>) -> Seq<
        (String, FileDiffData),
    > {
        diff.filter(
            |e: (String, FileDiffData)| self.includes(e.0@) && has_file(r.report_files@, e.0@),
        )
    }

    /// The counters of the lines that a diff entry adds to its file.
    pub open spec fn diff_counts_for(self, r: Report, e: (String, FileDiffData)) -> Counts {
        diff_counts(found_lines(r.report_files@, e.0@), added_lines(e.1), self.session_filter(r))
    }

    /// Each analysed file's counters, and their sum, stay within `i32`.
    pub open spec fn diff_fit(self, r: Report, diff: Seq<(String, FileDiffData)>) -> bool {
        &&& forall|j: int| 0 <= j < diff.len() ==> segments_fit((#[trigger] diff[j]).1.2@)
        &&& forall|j: int|
            0 <= j < diff.len() ==> diff_counts_fit(
                found_lines(r.report_files@, (#[trigger] diff[j]).0@),
                added_lines(diff[j].1),
                self.session_filter(r),
            )
        &&& sums_fit(
            self.diff_targets(r, diff).map_values(
                |e: (String, FileDiffData)| self.diff_counts_for(r, e),
            ),
        )
    }

    /// Whether the file filter lets `filename` through.
    pub fn should_include(&self, filename: &str) -> (r: bool)
        ensures
            r == self.includes(filename@),
    {
        match &self.files {
            Some(f) => {
                let name = String::from_str(filename);
                contains_name(f, &name)
            },
            None => true,
        }
    }

    /// Totals over the included files, each restricted to the selected
    /// sessions; `sessions` is the number of selected sessions, or of all
    /// sessions without flags.
    pub fn get_totals(&self, report: &Report) -> (r: ReportTotals)
        requires
            self.totals_fit(*report),
        ensures
            r.model() == sum_up(self.file_counts_for(*report)),
            r.sessions == match self.session_filter(*report) {
                Some(ids) => ids.len(),
                None => report.session_mapping@.len(),
            },
    {
        let sessions = match &self.flags {
            Some(actual_flags) => Some(report.get_sessions_from_flags(actual_flags)),
            None => None,
        };
        let ghost ids = self.session_filter(*report);
        let ghost files = report.report_files@;
        let ghost inc = |e: (String, ReportFile)| self.includes(e.0@);
        let ghost g = |e: (String, ReportFile)| self.counts_for(*report, e.1);
        let ghost cs = self.file_counts_for(*report);
        proof {
            assert(opt_ids(sessions) == ids);
        }
        let mut res = ReportTotals::new();
        let mut i: usize = 0;
        while i < report.report_files.len()
            invariant
                files == report.report_files@,
                opt_ids(sessions) == ids,
                ids == self.session_filter(*report),
                self.totals_fit(*report),
                inc == (|e: (String, ReportFile)| self.includes(e.0@)),
                g == (|e: (String, ReportFile)| self.counts_for(*report, e.1)),
                cs == files.filter(inc).map_values(g),
                0 <= i <= files.len(),
                res.model() == sum_up(files.take(i as int).filter(inc).map_values(g)),
            decreases files.len() - i,
        {
            let entry = &report.report_files[i];
            let ghost prev = files.take(i as int).filter(inc);
            proof {
                assert(files.take(i as int + 1).drop_last() == files.take(i as int));
                assert(files.take(i as int + 1).last() == *entry);
                reveal(Seq::filter);
            }
            if self.should_include(entry.0.as_str()) {
                let t = match &sessions {
                    Some(sess) => entry.1.get_filtered_totals(sess),
                    None => entry.1.get_totals(),
                };
                proof {
                    let next = files.take(i as int + 1).filter(inc);
                    assert(next == prev.push(*entry));
                    assert(next.map_values(g) == prev.map_values(g).push(g(*entry)));
                    assert(t.counts() == g(*entry));
                    lemma_filter_prefix(files, inc, i as int + 1);
                    let j = next.len() as int;
                    assert(cs == next.map_values(g) + files.skip(i as int + 1).filter(inc).map_values(g));
                    assert(cs.take(j) == next.map_values(g));
                    assert(model_fits(sum_up(cs.take(j))));
                    assert(counts_fit(cs[j - 1]));
                    assert(cs[j - 1] == g(*entry));
                    assert(next.map_values(g).drop_last() == prev.map_values(g));
                    assert(next.map_values(g).last() == g(*entry));
                }
                res.add_up(&t);
            } else {
                proof {
                    assert(!inc(*entry));
                    assert(files.take(i as int + 1).filter(inc) == prev);
                }
            }
            i = i + 1;
        }
        proof {
            assert(files.take(files.len() as int) == files);
        }
        res.sessions = match &sessions {
            Some(sess) => sess.len() as i32,
            None => report.session_mapping.len() as i32,
        };
        res
    }
}

impl FilterAnalyzer {
    /// For each diff entry whose file is included and present, the analysis
    /// of the lines the diff adds; the totals add up those analyses.
    pub fn calculate_diff(&self, report: &Report, diff: DiffInput) -> (r: (
        ReportTotals,
        Vec<(String, FileDiffAnalysis)>,
    ))
        requires
            report.wf(),
            self.diff_fit(*report, diff@),
        ensures
            ({
                let t = self.diff_targets(*report, diff@);
                &&& r.0.model() == sum_up(
                    t.map_values(|e: (String, FileDiffData)| self.diff_counts_for(*report, e)),
                )
                &&& r.0.sessions == 0
                &&& r.1@.len() == t.len()
                &&& forall|i: int|
                    0 <= i < t.len() ==> (#[trigger] r.1@[i]).0@ == t[i].0@ && diff_analysis_matches(
                        r.1@[i].1,
                        found_lines(report.report_files@, t[i].0@),
                        t[i].1,
                        self.session_filter(*report),
                    )
            }),
    {
        let sessions = match &self.flags {
            Some(actual_flags) => Some(report.get_sessions_from_flags(actual_flags)),
            None => None,
        };
        let ghost ids = self.session_filter(*report);
        let ghost d = diff@;
        let ghost pred = |e: (String, FileDiffData)|
            self.includes(e.0@) && has_file(report.report_files@, e.0@);
        let ghost g = |e: (String, FileDiffData)| self.diff_counts_for(*report, e);
        let ghost cs = self.diff_targets(*report, d).map_values(g);
        let mut res = ReportTotals::new();
        let mut mapping: Vec<(String, FileDiffAnalysis)> = Vec::new();
        let mut i: usize = 0;
        while i < diff.len()
            invariant
                d == diff@,
                report.wf(),
                opt_ids(sessions) == ids,
                ids == self.session_filter(*report),
                self.diff_fit(*report, d),
                pred == (|e: (String, FileDiffData)|
                    self.includes(e.0@) && has_file(report.report_files@, e.0@)),
                g == (|e: (String, FileDiffData)| self.diff_counts_for(*report, e)),
                cs == d.filter(pred).map_values(g),
                0 <= i <= d.len(),
                res.model() == sum_up(d.take(i as int).filter(pred).map_values(g)),
                res.sessions == 0,
                mapping@.len() == d.take(i as int).filter(pred).len(),
                forall|m: int|
                    0 <= m < mapping@.len() ==> (#[trigger] mapping@[m]).0@ == d.take(i as int).filter(
                        pred,
                    )[m].0@ && diff_analysis_matches(
                        mapping@[m].1,
                        found_lines(report.report_files@, d.take(i as int).filter(pred)[m].0@),
                        d.take(i as int).filter(pred)[m].1,
                        ids,
                    ),
            decreases d.len() - i,
        {
            let entry = &diff[i];
            let ghost prev = d.take(i as int).filter(pred);
            proof {
                assert(d.take(i as int + 1).drop_last() == d.take(i as int));
                assert(d.take(i as int + 1).last() == *entry);
                reveal(Seq::filter);
            }
            let mut handled = false;
            if self.should_include(entry.0.as_str()) {
                match report.get_by_filename(entry.0.as_str()) {
                    None => {},
                    Some(file_report) => {
                        proof {
                            let files = report.report_files@;
                            let c = choose|c: int| 0 <= c < files.len() && files[c].0@ == entry.0@;
                            assert(files[c].1 == *file_report);
                            assert(file_report.wf());
                            assert(found_lines(files, entry.0@) == file_report.lines@);
                            assert(segments_fit(d[i as int].1.2@));
                        }
                        let file_res = self.calculate_reportfile_diff(file_report, &entry.1, &sessions);
                        proof {
                            let next = d.take(i as int + 1).filter(pred);
                            assert(pred(*entry));
                            assert(next == prev.push(*entry));
                            assert(next.map_values(g) == prev.map_values(g).push(g(*entry)));
                            lemma_filter_prefix(d, pred, i as int + 1);
                            let j = next.len() as int;
                            assert(cs == next.map_values(g) + d.skip(i as int + 1).filter(pred).map_values(g));
                            assert(cs.take(j) == next.map_values(g));
                            assert(model_fits(sum_up(cs.take(j))));
                            assert(counts_fit(cs[j - 1]));
                            assert(next.map_values(g).drop_last() == prev.map_values(g));
                        }
                        res.add_up(&file_res.summary);
                        let name = entry.0.clone();
                        mapping.push((name, file_res));
                        handled = true;
                        proof {
                            let next = d.take(i as int + 1).filter(pred);
                            assert forall|m: int| 0 <= m < mapping@.len() implies (#[trigger] mapping@[m]).0@
                                == next[m].0@ && diff_analysis_matches(
                                mapping@[m].1,
                                found_lines(report.report_files@, next[m].0@),
                                next[m].1,
                                ids,
                            ) by {
                                if m < prev.len() {
                                    assert(next[m] == prev[m]);
                                }
                            }
                        }
                    },
                }
            }
            if !handled {
                proof {
                    assert(!pred(*entry));
                    assert(d.take(i as int + 1).filter(pred) == prev);
                }
            }
            i = i + 1;
        }
        proof {
            assert(d.take(d.len() as int) == d);
        }
        (res, mapping)
    }

    /// The analysis of the lines that `diff_data` adds to `reportfile`, each
    /// seen through the selected sessions.
    fn calculate_reportfile_diff(
        &self,
        reportfile: &ReportFile,
        diff_data: &FileDiffData,
        sessions: &Option<Vec<i32>>,
    ) -> (r: FileDiffAnalysis)
        requires
            reportfile.wf(),
            segments_fit(diff_data.2@),
            diff_counts_fit(reportfile.lines@, added_lines(*diff_data), opt_ids(*sessions)),
        ensures
            diff_analysis_matches(r, reportfile.lines@, *diff_data, opt_ids(*sessions)),
    {
        let (_, lines_on_head) = get_exclusions_from_diff(Some(&diff_data.2));
        let ghost ls = lines_on_head@;
        let ghost lines = reportfile.lines@;
        let ghost ids = opt_ids(*sessions);
        let mut summary = FileTotals::new();
        let mut hits: Vec<i32> = Vec::new();
        let mut misses: Vec<i32> = Vec::new();
        let mut partials: Vec<i32> = Vec::new();
        let mut k: usize = 0;
        while k < lines_on_head.len()
            invariant
                ls == lines_on_head@,
                ls == added_lines(*diff_data),
                lines == reportfile.lines@,
                reportfile.wf(),
                ids == opt_ids(*sessions),
                diff_counts_fit(lines, ls, ids),
                0 <= k <= ls.len(),
                summary.counts() == diff_counts(lines, ls.take(k as int), ids),
                summary.sessions == 0,
                hits@ == lines_with(lines, ls.take(k as int), ids, 'h'),
                misses@ == lines_with(lines, ls.take(k as int), ids, 'm'),
                partials@ == lines_with(lines, ls.take(k as int), ids, 'p'),
            decreases ls.len() - k,
        {
            let n = lines_on_head[k];
            proof {
                assert(ls.take(k as int + 1).drop_last() == ls.take(k as int));
                assert(ls.take(k as int + 1).last() == n);
                assert(counts_fit(diff_counts(lines, ls.take(k as int + 1), ids)));
            }
            match reportfile.get_line(n) {
                None => {},
                Some(line) => {
                    let proj = match sessions {
                        Some(s) => match line.filter_by_session_ids(s) {
                            Some(l) => Some((l.coverage, l.coverage_type, l.complexity)),
                            None => None,
                        },
                        None => Some((line.coverage, line.coverage_type, line.complexity)),
                    };
                    match proj {
                        None => {},
                        Some((c, t, x)) => {
                            proof {
                                assert(diff_line(lines, n as int, ids) == Some(
                                    (c, line_contrib(c, t, x)),
                                ));
                            }
                            summary = add_line(summary, c, t, x);
                            match c {
                                Coverage::Hit => hits.push(n),
                                Coverage::Miss => misses.push(n),
                                Coverage::Partial(_) => partials.push(n),
                                Coverage::Ignore => {},
                            }
                        },
                    }
                },
            }
            k = k + 1;
        }
        proof {
            assert(ls.take(ls.len() as int) == ls);
        }
        FileDiffAnalysis {
            summary,
            lines_with_misses: misses,
            lines_with_partials: partials,
            lines_with_hits: hits,
        }
    }
}

proof fn lemma_filter_all<A>(s: Seq<A>, p: spec_fn(A) -> bool)
    requires
        forall|x: A| #[trigger] p(x),
    ensures
        s.filter(p) == s,
    decreases s.len(),
{
    reveal(Seq::filter);
    if s.len() > 0 {
        lemma_filter_all(s.drop_last(), p);
        assert(s.drop_last().push(s.last()) == s);
    }
}

/// With no file filter and no flags, the filtered totals add up exactly the
/// files and sessions that the unfiltered totals do.
pub proof fn lemma_unfiltered_totals_agree(a: FilterAnalyzer, r: Report)
    requires
        a.files is None,
        a.flags is None,
    ensures
        a.file_counts_for(r) == file_counts(r.report_files@),
        a.session_filter(r) is None,
        a.totals_fit(r) <==> r.totals_fit(),
{
    let inc = |e: (String, ReportFile)| a.includes(e.0@);
    lemma_filter_all(r.report_files@, inc);
    assert(a.file_counts_for(r) =~= file_counts(r.report_files@));
}

} // verus!
