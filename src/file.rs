//! Per-file totals and the lines of one file.

use crate::cov::{join, Coverage};
use crate::line::{
    kept_sessions, session_coverages, sessions_complexity, Complexity, CoverageType, ReportLine,
};
use vstd::prelude::*;

verus! {

/// The counters of a set of lines, as mathematical integers.
pub struct Counts {
    pub hits: int,
    pub misses: int,
    pub partials: int,
    pub branches: int,
    pub methods: int,
    pub complexity: int,
    pub complexity_total: int,
}

pub open spec fn zero_counts() -> Counts {
    Counts {
        hits: 0,
        misses: 0,
        partials: 0,
        branches: 0,
        methods: 0,
        complexity: 0,
        complexity_total: 0,
    }
}

pub open spec fn add_counts(a: Counts, b: Counts) -> Counts {
    Counts {
        hits: a.hits + b.hits,
        misses: a.misses + b.misses,
        partials: a.partials + b.partials,
        branches: a.branches + b.branches,
        methods: a.methods + b.methods,
        complexity: a.complexity + b.complexity,
        complexity_total: a.complexity_total + b.complexity_total,
    }
}

/// What one line adds: one to the counter of its coverage (none for
/// Ignore), one to branches or methods by its kind, and its complexity.
pub open spec fn line_contrib(c: Coverage, t: CoverageType, x: Option<Complexity>) -> Counts {
    Counts {
        hits: if c is Hit {
            1
        } else {
            0
        },
        misses: if c is Miss {
            1
        } else {
            0
        },
        partials: if c is Partial {
            1
        } else {
            0
        },
        branches: if t is Branch {
            1
        } else {
            0
        },
        methods: if t is Method {
            1
        } else {
            0
        },
        complexity: match x {
            Some(Complexity::SingleComplexity(v)) => v as int,
            Some(Complexity::TotalComplexity(p)) => p.0 as int,
            None => 0,
        },
        complexity_total: match x {
            Some(Complexity::TotalComplexity(p)) => p.1 as int,
            _ => 0,
        },
    }
}

pub open spec fn line_counts(l: ReportLine) -> Counts {
    line_contrib(l.coverage, l.coverage_type, l.complexity)
}

/// The counters of a sequence of lines.
pub open spec fn counts_of(lines: Seq<ReportLine>) -> Counts
    decreases lines.len(),
{
    if lines.len() == 0 {
        zero_counts()
    } else {
        add_counts(counts_of(lines.drop_last()), line_counts(lines.last()))
    }
}

pub open spec fn fits_i32(x: int) -> bool {
    i32::MIN <= x <= i32::MAX
}

pub open spec fn counts_fit(c: Counts) -> bool {
    &&& fits_i32(c.hits)
    &&& fits_i32(c.misses)
    &&& fits_i32(c.partials)
    &&& fits_i32(c.branches)
    &&& fits_i32(c.methods)
    &&& fits_i32(c.complexity)
    &&& fits_i32(c.complexity_total)
    &&& fits_i32(c.hits + c.misses + c.partials)
}

/// Counting the lines one by one never leaves `i32`.
pub open spec fn lines_fit(lines: Seq<ReportLine>) -> bool {
    forall|k: int| 0 <= k <= lines.len() ==> counts_fit(#[trigger] counts_of(lines.take(k)))
}

pub open spec fn deref_lines(lines: Seq<&ReportLine>) -> Seq<ReportLine> {
    lines.map_values(|l: &ReportLine| *l)
}

/// Totals of a file, or of a set of lines.
#[derive(Debug, Clone, Copy, PartialEq, Eq, Structural)]
pub struct FileTotals {
    pub hits: i32,
    pub misses: i32,
    pub partials: i32,
    pub branches: i32,
    pub sessions: i32,
    pub complexity: i32,
    pub complexity_total: i32,
    pub methods: i32,
}

impl FileTotals {
    /// The counters, `sessions` aside.
    pub open spec fn counts(self) -> Counts {
        Counts {
            hits: self.hits as int,
            misses: self.misses as int,
            partials: self.partials as int,
            branches: self.branches as int,
            methods: self.methods as int,
            complexity: self.complexity as int,
            complexity_total: self.complexity_total as int,
        }
    }

    pub open spec fn spec_line_count(self) -> int {
        self.hits + self.misses + self.partials
    }

    /// Lines that count: hits, misses and partials.
    pub fn get_lines(&self) -> (r: i32)
        requires
            fits_i32(self.spec_line_count()),
        ensures
            r == self.spec_line_count(),
    {
        self.get_line_count()
    }

    /// Lines that count: hits, misses and partials.
    pub fn get_line_count(&self) -> (r: i32)
        requires
            fits_i32(self.spec_line_count()),
        ensures
            r == self.spec_line_count(),
    {
        (self.hits as i64 + self.misses as i64 + self.partials as i64) as i32
    }

    /// All counters zero.
    pub fn new() -> (r: FileTotals)
        ensures
            r.counts() == zero_counts(),
            r.sessions == 0,
    {
        FileTotals {
            hits: 0,
            misses: 0,
            partials: 0,
            branches: 0,
            sessions: 0,
            complexity: 0,
            complexity_total: 0,
            methods: 0,
        }
    }

    /// No line counts.
    pub fn is_empty(&self) -> (r: bool)
        requires
            fits_i32(self.spec_line_count()),
        ensures
            r == (self.spec_line_count() == 0),
    {
        self.get_line_count() == 0
    }

    /// The totals of a sequence of lines.
    pub fn from_lines(lines: Vec<&ReportLine>) -> (r: FileTotals)
        requires
            lines_fit(deref_lines(lines@)),
        ensures
            r.counts() == counts_of(deref_lines(lines@)),
            r.sessions == 0,
    {
        let ghost s = deref_lines(lines@);
        let mut res = FileTotals::new();
        let mut i: usize = 0;
        while i < lines.len()
            invariant
                s == deref_lines(lines@),
                lines_fit(s),
                0 <= i <= s.len(),
                res.counts() == counts_of(s.take(i as int)),
                res.sessions == 0,
            decreases s.len() - i,
        {
            let report_line = lines[i];
            proof {
                assert(s.take(i as int + 1).drop_last() == s.take(i as int));
                assert(s.take(i as int + 1).last() == *report_line);
                assert(counts_fit(counts_of(s.take(i as int + 1))));
            }
            res = add_line(res, report_line.coverage, report_line.coverage_type, report_line.complexity);
            i = i + 1;
        }
        proof {
            assert(s.take(s.len() as int) == s);
        }
        res
    }
}

/// `res` with one more line of coverage `c`, kind `t` and complexity `x`.
pub(crate) fn add_line(res: FileTotals, c: Coverage, t: CoverageType, x: Option<Complexity>) -> (r: FileTotals)
    requires
        counts_fit(add_counts(res.counts(), line_contrib(c, t, x))),
    ensures
        r.counts() == add_counts(res.counts(), line_contrib(c, t, x)),
        r.sessions == res.sessions,
{
    let mut r = res;
    match c {
        Coverage::Hit => r.hits = r.hits + 1,
        Coverage::Miss => r.misses = r.misses + 1,
        Coverage::Partial(_) => r.partials = r.partials + 1,
        Coverage::Ignore => {},
    }
    match x {
        Some(Complexity::SingleComplexity(v)) => {
            r.complexity = r.complexity + v;
        },
        Some(Complexity::TotalComplexity((n, d))) => {
            r.complexity = r.complexity + n;
            r.complexity_total = r.complexity_total + d;
        },
        None => {},
    }
    match t {
        CoverageType::Standard => {},
        CoverageType::Branch => r.branches = r.branches + 1,
        CoverageType::Method => r.methods = r.methods + 1,
    }
    r
}

/// What a line adds once restricted to the sessions in `ids` (nothing when
/// it is dropped).
pub open spec fn filtered_contrib(l: ReportLine, ids: Seq<i32>) -> Counts {
    let kept = kept_sessions(l.sessions@, ids);
    let c = join(session_coverages(kept));
    if kept.len() == 0 || c == Coverage::Ignore {
        zero_counts()
    } else {
        line_contrib(c, l.coverage_type, sessions_complexity(kept))
    }
}

/// The counters of a sequence of lines, each restricted to `ids`.
pub open spec fn filtered_counts_of(lines: Seq<ReportLine>, ids: Seq<i32>) -> Counts
    decreases lines.len(),
{
    if lines.len() == 0 {
        zero_counts()
    } else {
        add_counts(filtered_counts_of(lines.drop_last(), ids), filtered_contrib(lines.last(), ids))
    }
}

pub open spec fn filtered_lines_fit(lines: Seq<ReportLine>, ids: Seq<i32>) -> bool {
    forall|k: int|
        0 <= k <= lines.len() ==> counts_fit(#[trigger] filtered_counts_of(lines.take(k), ids))
}

/// Line numbers strictly ascending, each in `1 .. i32::MAX`.
pub open spec fn lines_sorted(s: Seq<(i32, ReportLine)>) -> bool {
    &&& forall|i: int, j: int| 0 <= i < j < s.len() ==> s[i].0 < s[j].0
    &&& forall|i: int| 0 <= i < s.len() ==> 0 < #[trigger] s[i].0 < i32::MAX
}

pub open spec fn line_values(s: Seq<(i32, ReportLine)>) -> Seq<ReportLine> {
    s.map_values(|p: (i32, ReportLine)| p.1)
}

pub open spec fn has_line(s: Seq<(i32, ReportLine)>, n: int) -> bool {
    exists|i: int| 0 <= i < s.len() && s[i].0 == n
}

/// The line numbered `n`, if any.
pub open spec fn find_line(s: Seq<(i32, ReportLine)>, n: int) -> Option<ReportLine> {
    if has_line(s, n) {
        Some(s[choose|i: int| 0 <= i < s.len() && s[i].0 == n].1)
    } else {
        None
    }
}

/// The line that the last entry numbered `n` holds, if any.
pub open spec fn last_with_key(s: Seq<(i32, ReportLine)>, n: int) -> Option<ReportLine>
    decreases s.len(),
{
    if s.len() == 0 {
        None
    } else if s.last().0 == n {
        Some(s.last().1)
    } else {
        last_with_key(s.drop_last(), n)
    }
}

/// In a well-formed file, each entry is the line found under its number.
pub proof fn lemma_find_line_at(s: Seq<(i32, ReportLine)>, i: int)
    requires
        lines_sorted(s),
        0 <= i < s.len(),
    ensures
        find_line(s, s[i].0 as int) == Some(s[i].1),
{
    assert(has_line(s, s[i].0 as int));
    let c = choose|c: int| 0 <= c < s.len() && s[c].0 == s[i].0;
    if c < i {
        assert(s[c].0 < s[i].0);
    } else if c > i {
        assert(s[i].0 < s[c].0);
    }
}

/// Puts line `l` under number `k`, replacing a line with that number.
fn insert_line(v: &mut Vec<(i32, ReportLine)>, k: i32, l: ReportLine)
    requires
        lines_sorted(old(v)@),
        0 < k < i32::MAX,
    ensures
        lines_sorted(final(v)@),
        forall|n: int|
            #![trigger find_line(final(v)@, n)]
            find_line(final(v)@, n) == if n == k {
                Some(l)
            } else {
                find_line(old(v)@, n)
            },
{
    let ghost v0 = v@;
    let mut i: usize = 0;
    while i < v.len() && v[i].0 < k
        invariant
            v@ == v0,
            0 <= i <= v0.len(),
            forall|j: int| 0 <= j < i ==> v0[j].0 < k,
        decreases v0.len() - i,
    {
        i = i + 1;
    }
    if i < v.len() && v[i].0 == k {
        v.set(i, (k, l));
        proof {
            let v1 = v@;
            assert(v1 == v0.update(i as int, (k, l)));
            assert forall|a: int, b: int| 0 <= a < b < v1.len() implies v1[a].0 < v1[b].0 by {
                assert(v0[a].0 < v0[b].0);
            }
            assert forall|j: int| 0 <= j < v1.len() implies 0 < #[trigger] v1[j].0 < i32::MAX by {
                assert(0 < v0[j].0 < i32::MAX);
            }
            assert forall|n: int| #![trigger find_line(v1, n)] find_line(v1, n) == if n == k {
                Some(l)
            } else {
                find_line(v0, n)
            } by {
                if n == k {
                    lemma_find_line_at(v1, i as int);
                } else if has_line(v0, n) {
                    let j = choose|j: int| 0 <= j < v0.len() && v0[j].0 == n;
                    lemma_find_line_at(v0, j);
                    lemma_find_line_at(v1, j);
                } else {
                    assert(!has_line(v1, n));
                }
            }
        }
    } else {
        v.insert(i, (k, l));
        proof {
            let v1 = v@;
            assert(v1 == v0.insert(i as int, (k, l)));
            assert forall|a: int, b: int| 0 <= a < b < v1.len() implies v1[a].0 < v1[b].0 by {
                if b < i {
                } else if b == i {
                } else if a < i {
                    assert(v0[a].0 < k);
                    if b - 1 > i {
                        assert(v0[i as int].0 < v0[b - 1].0);
                    }
                } else if a == i {
                    if b - 1 > i {
                        assert(v0[i as int].0 < v0[b - 1].0);
                    }
                } else {
                    assert(v0[a - 1].0 < v0[b - 1].0);
                }
            }
            assert forall|j: int| 0 <= j < v1.len() implies 0 < #[trigger] v1[j].0 < i32::MAX by {
                if j < i {
                    assert(0 < v0[j].0 < i32::MAX);
                } else if j > i {
                    assert(0 < v0[j - 1].0 < i32::MAX);
                }
            }
            assert forall|n: int| #![trigger find_line(v1, n)] find_line(v1, n) == if n == k {
                Some(l)
            } else {
                find_line(v0, n)
            } by {
                if n == k {
                    lemma_find_line_at(v1, i as int);
                } else if has_line(v0, n) {
                    let j = choose|j: int| 0 <= j < v0.len() && v0[j].0 == n;
                    lemma_find_line_at(v0, j);
                    if j < i {
                        lemma_find_line_at(v1, j);
                    } else {
                        assert(v1[j + 1] == v0[j]);
                        lemma_find_line_at(v1, j + 1);
                    }
                } else {
                    if has_line(v1, n) {
                        let j = choose|j: int| 0 <= j < v1.len() && v1[j].0 == n;
                        if j < i {
                            assert(v0[j].0 == n);
                        } else if j > i {
                            assert(v0[j - 1].0 == n);
                        }
                    }
                }
            }
        }
    }
}

/// The covered lines of one file, by ascending line number.
#[derive(Debug)]
pub struct ReportFile {
    pub lines: Vec<(i32, ReportLine)>,
}

impl ReportFile {
    pub open spec fn wf(self) -> bool {
        lines_sorted(self.lines@)
    }

    /// A file from numbered lines in any order; of two lines with one
    /// number, the later is kept.
    pub fn new(lines: Vec<(i32, ReportLine)>) -> (r: ReportFile)
        requires
            forall|i: int| 0 <= i < lines@.len() ==> 0 < #[trigger] lines@[i].0 < i32::MAX,
        ensures
            r.wf(),
            forall|n: int| #[trigger] find_line(r.lines@, n) == last_with_key(lines@, n),
    {
        let ghost input = lines@;
        let n = lines.len();
        let mut rev: Vec<(i32, ReportLine)> = Vec::new();
        let mut src = lines;
        while src.len() > 0
            invariant
                src@.len() + rev@.len() == n,
                n == input.len(),
                forall|i: int| 0 <= i < src@.len() ==> #[trigger] src@[i] == input[i],
                forall|i: int| 0 <= i < rev@.len() ==> #[trigger] rev@[i] == input[n - 1 - i],
            decreases src@.len(),
        {
            let x = src.pop().unwrap();
            rev.push(x);
        }
        let mut out: Vec<(i32, ReportLine)> = Vec::new();
        let mut i: usize = 0;
        while rev.len() > 0
            invariant
                n == input.len(),
                i + rev@.len() == n,
                forall|k: int| 0 <= k < rev@.len() ==> #[trigger] rev@[k] == input[n - 1 - k],
                forall|k: int| 0 <= k < input.len() ==> 0 < #[trigger] input[k].0 < i32::MAX,
                lines_sorted(out@),
                forall|m: int| #[trigger] find_line(out@, m) == last_with_key(input.take(i as int), m),
            decreases rev@.len(),
        {
            let (k, l) = rev.pop().unwrap();
            proof {
                assert(input[i as int] == (k, l));
                assert(input.take(i as int + 1).drop_last() == input.take(i as int));
                assert(input.take(i as int + 1).last() == (k, l));
            }
            let ghost before = out@;
            insert_line(&mut out, k, l);
            proof {
                assert forall|m: int| #[trigger] find_line(out@, m) == last_with_key(input.take(i as int + 1), m) by {
                    assert(find_line(out@, m) == if m == k {
                        Some(l)
                    } else {
                        find_line(before, m)
                    });
                }
            }
            i = i + 1;
        }
        proof {
            assert(input.take(n as int) == input);
        }
        ReportFile { lines: out }
    }

    /// One past the last line number, or 0 for a file without lines.
    pub fn get_eof(&self) -> (r: i32)
        requires
            self.wf(),
        ensures
            self.lines@.len() == 0 ==> r == 0,
            self.lines@.len() > 0 ==> has_line(self.lines@, r - 1),
            forall|i: int| 0 <= i < self.lines@.len() ==> self.lines@[i].0 < r,
    {
        let n = self.lines.len();
        if n == 0 {
            0
        } else {
            proof {
                assert(self.lines@[n - 1].0 < i32::MAX);
            }
            self.lines[n - 1].0 + 1
        }
    }

    /// The line numbered `n`, found by bisection.
    pub fn get_line(&self, n: i32) -> (r: Option<&ReportLine>)
        requires
            self.wf(),
        ensures
            match r {
                Some(l) => find_line(self.lines@, n as int) == Some(*l),
                None => find_line(self.lines@, n as int) is None,
            },
    {
        let ghost s = self.lines@;
        let mut lo: usize = 0;
        let mut hi: usize = self.lines.len();
        while lo < hi
            invariant
                s == self.lines@,
                lines_sorted(s),
                0 <= lo <= hi <= s.len(),
                forall|i: int| 0 <= i < lo ==> s[i].0 < n,
                forall|i: int| hi <= i < s.len() ==> s[i].0 > n,
            decreases hi - lo,
        {
            let mid = lo + (hi - lo) / 2;
            let k = self.lines[mid].0;
            if k == n {
                proof {
                    assert(has_line(s, n as int));
                    let c = choose|i: int| 0 <= i < s.len() && s[i].0 == n;
                    assert(c == mid);
                }
                return Some(&self.lines[mid].1);
            } else if k < n {
                lo = mid + 1;
            } else {
                hi = mid;
            }
        }
        None
    }

    /// The totals of all lines of the file.
    pub fn get_totals(&self) -> (r: FileTotals)
        requires
            lines_fit(line_values(self.lines@)),
        ensures
            r.counts() == counts_of(line_values(self.lines@)),
            r.sessions == 0,
    {
        let mut all: Vec<&ReportLine> = Vec::new();
        let mut i: usize = 0;
        while i < self.lines.len()
            invariant
                0 <= i <= self.lines@.len(),
                all@.len() == i,
                forall|k: int| 0 <= k < i ==> *all@[k] == self.lines@[k].1,
            decreases self.lines@.len() - i,
        {
            all.push(&self.lines[i].1);
            i = i + 1;
        }
        proof {
            assert(deref_lines(all@) =~= line_values(self.lines@));
        }
        FileTotals::from_lines(all)
    }

    /// The totals of the file with each line restricted to the sessions in
    /// `session_ids`; dropped lines count nothing.
    pub fn get_filtered_totals(&self, session_ids: &Vec<i32>) -> (r: FileTotals)
        requires
            filtered_lines_fit(line_values(self.lines@), session_ids@),
        ensures
            r.counts() == filtered_counts_of(line_values(self.lines@), session_ids@),
            r.sessions == 0,
    {
        let ghost vals = line_values(self.lines@);
        let mut res = FileTotals::new();
        let mut i: usize = 0;
        while i < self.lines.len()
            invariant
                vals == line_values(self.lines@),
                filtered_lines_fit(vals, session_ids@),
                0 <= i <= vals.len(),
                res.counts() == filtered_counts_of(vals.take(i as int), session_ids@),
                res.sessions == 0,
            decreases vals.len() - i,
        {
            let line = &self.lines[i].1;
            proof {
                assert(vals.take(i as int + 1).drop_last() == vals.take(i as int));
                assert(vals.take(i as int + 1).last() == *line);
                assert(counts_fit(filtered_counts_of(vals.take(i as int + 1), session_ids@)));
            }
            match line.filter_by_session_ids(session_ids) {
                Some(l) => {
                    res = add_line(res, l.coverage, l.coverage_type, l.complexity);
                },
                None => {
                    proof {
                        assert(add_counts(res.counts(), zero_counts()) == res.counts());
                    }
                },
            }
            i = i + 1;
        }
        proof {
            assert(vals.take(vals.len() as int) == vals);
        }
        res
    }
}

} // verus!
