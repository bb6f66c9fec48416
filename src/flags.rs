//! Totals per flag: every session of a line counts for each flag it carries.

use crate::cov::Coverage;
use crate::file::{add_counts, Counts, FileTotals, ReportFile};
use crate::line::{LineSession, ReportLine};
use crate::report::{add_up_model, model_fits, zero_model, Report, ReportTotals, TotalsModel};
use vstd::prelude::*;

verus! {

/// The flags of a session (the last mapping entry for its id).
pub open spec fn flags_of(m: Seq<(i32, Vec<String>)>, id: i32) -> Option<Seq<String>>
    decreases m.len(),
{
    if m.len() == 0 {
        None
    } else if m.last().0 == id {
        Some(m.last().1@)
    } else {
        flags_of(m.drop_last(), id)
    }
}

/// One `(flag, coverage)` pair per flag of the session.
pub open spec fn session_flag_events(m: Seq<(i32, Vec<String>)>, s: LineSession) -> Seq<
    (Seq<char>, Coverage),
> {
    match flags_of(m, s.id) {
        Some(fl) => fl.map_values(|f: String| (f@, s.coverage)),
        None => Seq::empty(),
    }
}

pub open spec fn sessions_flag_events(m: Seq<(i32, Vec<String>)>, ss: Seq<LineSession>) -> Seq<
    (Seq<char>, Coverage),
>
    decreases ss.len(),
{
    if ss.len() == 0 {
        Seq::empty()
    } else {
        sessions_flag_events(m, ss.drop_last()) + session_flag_events(m, ss.last())
    }
}

/// The `(flag, coverage)` pairs of all lines, sessions and flags, in order.
pub open spec fn lines_flag_events(m: Seq<(i32, Vec<String>)>, lines: Seq<(i32, ReportLine)>) -> Seq<
    (Seq<char>, Coverage),
>
    decreases lines.len(),
{
    if lines.len() == 0 {
        Seq::empty()
    } else {
        lines_flag_events(m, lines.drop_last()) + sessions_flag_events(m, lines.last().1.sessions@)
    }
}

/// Where the entry for `f` stands, if any.
pub open spec fn flag_index<T>(acc: Seq<(Seq<char>, T)>, f: Seq<char>) -> Option<int>
    decreases acc.len(),
{
    if acc.len() == 0 {
        None
    } else if acc.last().0 == f {
        Some(acc.len() - 1)
    } else {
        flag_index(acc.drop_last(), f)
    }
}

/// One more line of coverage `c`: a hit, a miss, a partial, or nothing.
pub open spec fn coverage_count(c: Coverage) -> Counts {
    Counts {
        hits: if c is Hit {
            1
        } else {
            0
        },
        misses: if c is Miss {
            1
        } else {
            0
        },
        partials: if c is Partial {
            1
        } else {
            0
        },
        branches: 0,
        methods: 0,
        complexity: 0,
        complexity_total: 0,
    }
}

/// Counts one event: into the flag's entry, or a new entry at the end.
pub open spec fn tally_step(acc: Seq<(Seq<char>, Counts)>, e: (Seq<char>, Coverage)) -> Seq<
    (Seq<char>, Counts),
> {
    match flag_index(acc, e.0) {
        Some(i) => acc.update(i, (e.0, add_counts(acc[i].1, coverage_count(e.1)))),
        None => acc.push((e.0, coverage_count(e.1))),
    }
}

/// Per flag, in order of first appearance, the counters of its events.
pub open spec fn tally(evs: Seq<(Seq<char>, Coverage)>) -> Seq<(Seq<char>, Counts)>
    decreases evs.len(),
{
    if evs.len() == 0 {
        Seq::empty()
    } else {
        tally_step(tally(evs.drop_last()), evs.last())
    }
}

/// Every entry counts only hits, misses and partials, at most `n` in all.
pub open spec fn tally_within(acc: Seq<(Seq<char>, Counts)>, n: int) -> bool {
    &&& acc.len() <= n
    &&& forall|i: int|
        0 <= i < acc.len() ==> {
            let c = #[trigger] acc[i].1;
            &&& 0 <= c.hits && 0 <= c.misses && 0 <= c.partials
            &&& c.hits + c.misses + c.partials <= n
            &&& c.branches == 0 && c.methods == 0 && c.complexity == 0 && c.complexity_total == 0
        }
}

proof fn lemma_flag_index<T>(acc: Seq<(Seq<char>, T)>, f: Seq<char>)
    ensures
        match flag_index(acc, f) {
            Some(i) => 0 <= i < acc.len() && acc[i].0 == f,
            None => forall|i: int| 0 <= i < acc.len() ==> acc[i].0 != f,
        },
    decreases acc.len(),
{
    if acc.len() > 0 {
        lemma_flag_index(acc.drop_last(), f);
        if acc.last().0 != f {
            match flag_index(acc.drop_last(), f) {
                Some(i) => {
                    assert(acc.drop_last()[i] == acc[i]);
                },
                None => {
                    assert forall|i: int| 0 <= i < acc.len() implies acc[i].0 != f by {
                        if i < acc.len() - 1 {
                            assert(acc.drop_last()[i] == acc[i]);
                        }
                    }
                },
            }
        }
    }
}

proof fn lemma_tally_step_within(acc: Seq<(Seq<char>, Counts)>, e: (Seq<char>, Coverage), n: int)
    requires
        tally_within(acc, n),
    ensures
        tally_within(tally_step(acc, e), n + 1),
{
    lemma_flag_index(acc, e.0);
    let r = tally_step(acc, e);
    assert forall|i: int| 0 <= i < r.len() implies {
        let c = #[trigger] r[i].1;
        &&& 0 <= c.hits && 0 <= c.misses && 0 <= c.partials
        &&& c.hits + c.misses + c.partials <= n + 1
        &&& c.branches == 0 && c.methods == 0 && c.complexity == 0 && c.complexity_total == 0
    } by {
        if i < acc.len() {
            let c0 = acc[i].1;
            assert(0 <= c0.hits && 0 <= c0.misses && 0 <= c0.partials);
        }
    }
}

fn find_flag_file(acc: &Vec<(String, FileTotals)>, f: &String) -> (r: Option<usize>)
    ensures
        match flag_index(acc@.map_values(|e: (String, FileTotals)| (e.0@, e.1.counts())), f@) {
            Some(i) => r == Some(i as usize),
            None => r is None,
        },
{
    let ghost am = acc@.map_values(|e: (String, FileTotals)| (e.0@, e.1.counts()));
    let mut i: usize = acc.len();
    proof {
        assert(am.take(am.len() as int) == am);
    }
    while i > 0
        invariant
            0 <= i <= acc@.len(),
            am == acc@.map_values(|e: (String, FileTotals)| (e.0@, e.1.counts())),
            flag_index(am, f@) == flag_index(am.take(i as int), f@),
        decreases i,
    {
        proof {
            assert(am.take(i as int).drop_last() == am.take(i as int - 1));
            assert(am.take(i as int).last() == am[i as int - 1]);
        }
        if acc[i - 1].0 == *f {
            return Some(i - 1);
        }
        i = i - 1;
    }
    None
}

pub open spec fn file_tally_model(acc: Seq<(String, FileTotals)>) -> Seq<(Seq<char>, Counts)> {
    acc.map_values(|e: (String, FileTotals)| (e.0@, e.1.counts()))
}

fn tally_event(acc: &mut Vec<(String, FileTotals)>, f: &String, c: Coverage, Ghost(n): Ghost<int>)
    requires
        tally_within(file_tally_model(old(acc)@), n),
        n + 1 <= i32::MAX,
        forall|i: int| 0 <= i < old(acc)@.len() ==> (#[trigger] old(acc)@[i]).1.sessions == 0,
    ensures
        file_tally_model(final(acc)@) == tally_step(file_tally_model(old(acc)@), (f@, c)),
        forall|i: int| 0 <= i < final(acc)@.len() ==> (#[trigger] final(acc)@[i]).1.sessions == 0,
{
    let ghost am = file_tally_model(acc@);
    let ghost a0 = acc@;
    proof {
        lemma_flag_index(am, f@);
    }
    let (h, mi, pa): (i32, i32, i32) = match c {
        Coverage::Hit => (1, 0, 0),
        Coverage::Miss => (0, 1, 0),
        Coverage::Partial(_) => (0, 0, 1),
        Coverage::Ignore => (0, 0, 0),
    };
    let add = FileTotals {
        hits: h,
        misses: mi,
        partials: pa,
        branches: 0,
        sessions: 0,
        complexity: 0,
        complexity_total: 0,
        methods: 0,
    };
    match find_flag_file(acc, f) {
        Some(i) => {
            let t = acc[i].1;
            proof {
                assert(am[i as int] == (acc@[i as int].0@, t.counts()));
                let c0 = am[i as int].1;
                assert(0 <= c0.hits && 0 <= c0.misses && 0 <= c0.partials);
            }
            let nt = FileTotals {
                hits: t.hits + add.hits,
                misses: t.misses + add.misses,
                partials: t.partials + add.partials,
                branches: t.branches,
                sessions: t.sessions,
                complexity: t.complexity,
                complexity_total: t.complexity_total,
                methods: t.methods,
            };
            acc.set(i, (f.clone(), nt));
            proof {
                assert(file_tally_model(acc@) =~= am.update(
                    i as int,
                    (f@, add_counts(am[i as int].1, coverage_count(c))),
                ));
            }
        },
        None => {
            acc.push((f.clone(), add));
            proof {
                assert(file_tally_model(acc@) =~= am.push((f@, coverage_count(c))));
            }
        },
    }
}

impl ReportFile {
    /// Per flag, the hits, misses and partials of the sessions that carry
    /// it (a session counts once for each of its flags); kinds and
    /// complexity are not counted here.
    pub fn calculate_per_flag_totals(&self, flag_mapping: &Vec<(i32, Vec<String>)>) -> (r: Vec<
        (String, FileTotals),
    >)
        requires
            lines_flag_events(flag_mapping@, self.lines@).len() < i32::MAX,
        ensures
            file_tally_model(r@) == tally(lines_flag_events(flag_mapping@, self.lines@)),
            forall|i: int| 0 <= i < r@.len() ==> (#[trigger] r@[i]).1.sessions == 0,
            tally_within(file_tally_model(r@), lines_flag_events(flag_mapping@, self.lines@).len() as int),
    {
        let ghost m = flag_mapping@;
        let ghost total = lines_flag_events(m, self.lines@);
        let mut acc: Vec<(String, FileTotals)> = Vec::new();
        let mut i: usize = 0;
        proof {
            assert(file_tally_model(acc@) =~= Seq::<(Seq<char>, Counts)>::empty());
        }
        while i < self.lines.len()
            invariant
                m == flag_mapping@,
                total == lines_flag_events(m, self.lines@),
                total.len() < i32::MAX,
                0 <= i <= self.lines@.len(),
                file_tally_model(acc@) == tally(lines_flag_events(m, self.lines@.take(i as int))),
                tally_within(file_tally_model(acc@), lines_flag_events(m, self.lines@.take(i as int)).len() as int),
                forall|k: int| 0 <= k < acc@.len() ==> (#[trigger] acc@[k]).1.sessions == 0,
            decreases self.lines@.len() - i,
        {
            let line = &self.lines[i].1;
            let ghost before = lines_flag_events(m, self.lines@.take(i as int));
            proof {
                assert(self.lines@.take(i as int + 1).drop_last() == self.lines@.take(i as int));
                assert(self.lines@.take(i as int + 1).last() == self.lines@[i as int]);
                lemma_events_prefix(m, self.lines@, i as int + 1);
            }
            let mut j: usize = 0;
            while j < line.sessions.len()
                invariant
                    m == flag_mapping@,
                    total.len() < i32::MAX,
                    before.len() + sessions_flag_events(m, line.sessions@).len() <= total.len(),
                    0 <= j <= line.sessions@.len(),
                    file_tally_model(acc@) == tally(before + sessions_flag_events(m, line.sessions@.take(j as int))),
                    tally_within(file_tally_model(acc@), (before + sessions_flag_events(m, line.sessions@.take(j as int))).len() as int),
                    forall|k: int| 0 <= k < acc@.len() ==> (#[trigger] acc@[k]).1.sessions == 0,
                decreases line.sessions@.len() - j,
            {
                let sess = line.sessions[j];
                let ghost ev0 = before + sessions_flag_events(m, line.sessions@.take(j as int));
                proof {
                    assert(line.sessions@.take(j as int + 1).drop_last() == line.sessions@.take(j as int));
                    assert(line.sessions@.take(j as int + 1).last() == sess);
                    lemma_sessions_events_prefix(m, line.sessions@, j as int + 1);
                }
                match find_flags(flag_mapping, sess.id) {
                    Some(flags) => {
                        let mut k: usize = 0;
                        while k < flags.len()
                            invariant
                                m == flag_mapping@,
                                total.len() < i32::MAX,
                                ev0.len() + flags@.len() <= total.len(),
                                0 <= k <= flags@.len(),
                                file_tally_model(acc@) == tally(ev0 + flags@.take(k as int).map_values(|f: String| (f@, sess.coverage))),
                                tally_within(file_tally_model(acc@), (ev0 + flags@.take(k as int).map_values(|f: String| (f@, sess.coverage))).len() as int),
                                forall|q: int| 0 <= q < acc@.len() ==> (#[trigger] acc@[q]).1.sessions == 0,
                            decreases flags@.len() - k,
                        {
                            let ghost evk = ev0 + flags@.take(k as int).map_values(|f: String| (f@, sess.coverage));
                            let ghost evk1 = ev0 + flags@.take(k as int + 1).map_values(|f: String| (f@, sess.coverage));
                            proof {
                                assert(evk1 =~= evk.push((flags@[k as int]@, sess.coverage)));
                                assert(evk1.drop_last() == evk);
                                lemma_tally_step_within(file_tally_model(acc@), (flags@[k as int]@, sess.coverage), evk.len() as int);
                            }
                            tally_event(&mut acc, &flags[k], sess.coverage, Ghost(evk.len() as int));
                            k = k + 1;
                        }
                        proof {
                            assert(flags@.take(flags@.len() as int) == flags@);
                            assert(session_flag_events(m, sess) == flags@.map_values(|f: String| (f@, sess.coverage)));
                            assert(ev0 + session_flag_events(m, sess) =~= before + sessions_flag_events(m, line.sessions@.take(j as int + 1)));
                        }
                    },
                    None => {
                        proof {
                            assert(session_flag_events(m, sess) == Seq::<(Seq<char>, Coverage)>::empty());
                            assert(ev0 =~= before + sessions_flag_events(m, line.sessions@.take(j as int + 1)));
                        }
                    },
                }
                j = j + 1;
            }
            proof {
                assert(line.sessions@.take(line.sessions@.len() as int) == line.sessions@);
            }
            i = i + 1;
        }
        proof {
            assert(self.lines@.take(self.lines@.len() as int) == self.lines@);
        }
        acc
    }
}

/// Adds one file's per-flag counters into the report's entry for the flag.
pub open spec fn merge_step(acc: Seq<(Seq<char>, TotalsModel)>, e: (Seq<char>, Counts)) -> Seq<
    (Seq<char>, TotalsModel),
> {
    match flag_index(acc, e.0) {
        Some(i) => acc.update(i, (e.0, add_up_model(acc[i].1, e.1))),
        None => acc.push((e.0, add_up_model(zero_model(), e.1))),
    }
}

pub open spec fn merge_tally(acc: Seq<(Seq<char>, TotalsModel)>, t: Seq<(Seq<char>, Counts)>) -> Seq<
    (Seq<char>, TotalsModel),
>
    decreases t.len(),
{
    if t.len() == 0 {
        acc
    } else {
        merge_step(merge_tally(acc, t.drop_last()), t.last())
    }
}

/// Per flag, in order of first appearance, the totals over all files.
pub open spec fn report_flag_tally(m: Seq<(i32, Vec<String>)>, files: Seq<(String, ReportFile)>) -> Seq<
    (Seq<char>, TotalsModel),
>
    decreases files.len(),
{
    if files.len() == 0 {
        Seq::empty()
    } else {
        merge_tally(
            report_flag_tally(m, files.drop_last()),
            tally(lines_flag_events(m, files.last().1.lines@)),
        )
    }
}

pub open spec fn entries_fit(acc: Seq<(Seq<char>, TotalsModel)>) -> bool {
    forall|i: int| 0 <= i < acc.len() ==> model_fits(#[trigger] acc[i].1)
}

pub open spec fn merge_fits(acc: Seq<(Seq<char>, TotalsModel)>, t: Seq<(Seq<char>, Counts)>) -> bool
    decreases t.len(),
{
    if t.len() == 0 {
        true
    } else {
        merge_fits(acc, t.drop_last()) && entries_fit(merge_tally(acc, t))
    }
}

/// Every intermediate per-flag total stays within `i32`.
pub open spec fn flag_totals_fit(m: Seq<(i32, Vec<String>)>, files: Seq<(String, ReportFile)>) -> bool
    decreases files.len(),
{
    if files.len() == 0 {
        true
    } else {
        &&& flag_totals_fit(m, files.drop_last())
        &&& lines_flag_events(m, files.last().1.lines@).len() < i32::MAX
        &&& merge_fits(
            report_flag_tally(m, files.drop_last()),
            tally(lines_flag_events(m, files.last().1.lines@)),
        )
    }
}

pub open spec fn report_tally_model(acc: Seq<(String, ReportTotals)>) -> Seq<(Seq<char>, TotalsModel)> {
    acc.map_values(|e: (String, ReportTotals)| (e.0@, e.1.model()))
}

proof fn lemma_flag_totals_fit_prefix(m: Seq<(i32, Vec<String>)>, files: Seq<(String, ReportFile)>, k: int)
    requires
        0 <= k < files.len(),
        flag_totals_fit(m, files),
    ensures
        flag_totals_fit(m, files.take(k + 1)),
        lines_flag_events(m, files[k].1.lines@).len() < i32::MAX,
        merge_fits(
            report_flag_tally(m, files.take(k)),
            tally(lines_flag_events(m, files[k].1.lines@)),
        ),
    decreases files.len() - k,
{
    if k + 1 < files.len() {
        lemma_flag_totals_fit_prefix(m, files.drop_last(), k);
        assert(files.drop_last().take(k + 1) == files.take(k + 1));
        assert(files.drop_last().take(k) == files.take(k));
        assert(files.drop_last()[k] == files[k]);
    } else {
        assert(files.take(k + 1) == files);
        assert(files.drop_last() == files.take(k));
    }
    assert(files.take(k + 1).drop_last() == files.take(k));
    assert(files.take(k + 1).last() == files[k]);
}

proof fn lemma_merge_fits_prefix(acc: Seq<(Seq<char>, TotalsModel)>, t: Seq<(Seq<char>, Counts)>, k: int)
    requires
        0 < k <= t.len(),
        merge_fits(acc, t),
    ensures
        entries_fit(merge_tally(acc, t.take(k))),
    decreases t.len() - k,
{
    if k < t.len() {
        lemma_merge_fits_prefix(acc, t.drop_last(), k);
        assert(t.drop_last().take(k) == t.take(k));
    } else {
        assert(t.take(k) == t);
    }
}

fn find_flag_report(acc: &Vec<(String, ReportTotals)>, f: &String) -> (r: Option<usize>)
    ensures
        match flag_index(report_tally_model(acc@), f@) {
            Some(i) => r matches Some(k) && k == i,
            None => r is None,
        },
{
    let ghost am = report_tally_model(acc@);
    let mut i: usize = acc.len();
    proof {
        assert(am.take(am.len() as int) == am);
    }
    while i > 0
        invariant
            0 <= i <= acc@.len(),
            am == report_tally_model(acc@),
            flag_index(am, f@) == flag_index(am.take(i as int), f@),
        decreases i,
    {
        proof {
            assert(am.take(i as int).drop_last() == am.take(i as int - 1));
            assert(am.take(i as int).last() == am[i as int - 1]);
        }
        if acc[i - 1].0 == *f {
            return Some(i - 1);
        }
        i = i - 1;
    }
    None
}

impl Report {
    /// Per flag, in order of first appearance, the report totals that its
    /// per-file totals add up to (see `ReportFile::calculate_per_flag_totals`).
    pub fn calculate_per_flag_totals(&self) -> (r: Vec<(String, ReportTotals)>)
        requires
            flag_totals_fit(self.session_mapping@, self.report_files@),
        ensures
            report_tally_model(r@) == report_flag_tally(self.session_mapping@, self.report_files@),
            forall|i: int| 0 <= i < r@.len() ==> (#[trigger] r@[i]).1.sessions == 0,
    {
        let ghost m = self.session_mapping@;
        let ghost files = self.report_files@;
        let mut acc: Vec<(String, ReportTotals)> = Vec::new();
        let mut i: usize = 0;
        proof {
            assert(report_tally_model(acc@) =~= Seq::<(Seq<char>, TotalsModel)>::empty());
        }
        while i < self.report_files.len()
            invariant
                m == self.session_mapping@,
                files == self.report_files@,
                flag_totals_fit(m, files),
                0 <= i <= files.len(),
                report_tally_model(acc@) == report_flag_tally(m, files.take(i as int)),
                forall|k: int| 0 <= k < acc@.len() ==> (#[trigger] acc@[k]).1.sessions == 0,
            decreases files.len() - i,
        {
            proof {
                lemma_flag_totals_fit_prefix(m, files, i as int);
                assert(files.take(i as int + 1).drop_last() == files.take(i as int));
                assert(files.take(i as int + 1).last() == files[i as int]);
            }
            let file_totals = self.report_files[i].1.calculate_per_flag_totals(&self.session_mapping);
            let ghost t = file_tally_model(file_totals@);
            let ghost base = report_flag_tally(m, files.take(i as int));
            let ghost ne = lines_flag_events(m, files[i as int].1.lines@).len() as int;
            let mut j: usize = 0;
            while j < file_totals.len()
                invariant
                    t == file_tally_model(file_totals@),
                    tally_within(t, ne),
                    ne < i32::MAX,
                    merge_fits(base, t),
                    0 <= j <= t.len(),
                    report_tally_model(acc@) == merge_tally(base, t.take(j as int)),
                    forall|k: int| 0 <= k < acc@.len() ==> (#[trigger] acc@[k]).1.sessions == 0,
                decreases t.len() - j,
            {
                let flag_name = &file_totals[j].0;
                let totals = file_totals[j].1;
                let ghost am = report_tally_model(acc@);
                proof {
                    assert(t.take(j as int + 1).drop_last() == t.take(j as int));
                    assert(t.take(j as int + 1).last() == t[j as int]);
                    assert(t[j as int] == (flag_name@, totals.counts()));
                    lemma_merge_fits_prefix(base, t, j as int + 1);
                    lemma_flag_index(am, flag_name@);
                    let c = t[j as int].1;
                    assert(0 <= c.hits && 0 <= c.misses && 0 <= c.partials);
                    assert(c.hits + c.misses + c.partials <= ne);
                }
                match find_flag_report(&acc, flag_name) {
                    Some(k) => {
                        let mut current = acc[k].1;
                        proof {
                            assert(flag_index(am, flag_name@) == Some(k as int));
                            assert(am[k as int] == (acc@[k as int].0@, current.model()));
                            assert(merge_step(am, t[j as int]) == am.update(k as int, (flag_name@, add_up_model(am[k as int].1, totals.counts()))));
                            assert(merge_tally(base, t.take(j as int + 1)) == merge_step(am, t[j as int]));
                            assert(entries_fit(merge_step(am, t[j as int])));
                            assert(merge_step(am, t[j as int])[k as int] == (flag_name@, add_up_model(current.model(), totals.counts())));
                            assert(model_fits(merge_step(am, t[j as int])[k as int].1));
                        }
                        current.add_up(&totals);
                        acc.set(k, (flag_name.clone(), current));
                        proof {
                            assert(report_tally_model(acc@) =~= merge_step(am, t[j as int]));
                        }
                    },
                    None => {
                        let mut current = ReportTotals::new();
                        proof {
                            assert(flag_index(am, flag_name@) is None);
                            assert(merge_tally(base, t.take(j as int + 1)) == merge_step(am, t[j as int]));
                            assert(entries_fit(merge_step(am, t[j as int])));
                            assert(merge_step(am, t[j as int])[am.len() as int] == (flag_name@, add_up_model(zero_model(), totals.counts())));
                            assert(model_fits(merge_step(am, t[j as int])[am.len() as int].1));
                        }
                        current.add_up(&totals);
                        acc.push((flag_name.clone(), current));
                        proof {
                            assert(report_tally_model(acc@) =~= merge_step(am, t[j as int]));
                        }
                    },
                }
                j = j + 1;
            }
            proof {
                assert(t.take(t.len() as int) == t);
            }
            i = i + 1;
        }
        proof {
            assert(files.take(files.len() as int) == files);
        }
        acc
    }
}

proof fn lemma_events_prefix(m: Seq<(i32, Vec<String>)>, lines: Seq<(i32, ReportLine)>, k: int)
    requires
        0 <= k <= lines.len(),
    ensures
        lines_flag_events(m, lines.take(k)).len() <= lines_flag_events(m, lines).len(),
    decreases lines.len() - k,
{
    if k < lines.len() {
        lemma_events_prefix(m, lines, k + 1);
        assert(lines.take(k + 1).drop_last() == lines.take(k));
    } else {
        assert(lines.take(k) == lines);
    }
}

proof fn lemma_sessions_events_prefix(m: Seq<(i32, Vec<String>)>, ss: Seq<LineSession>, k: int)
    requires
        0 <= k <= ss.len(),
    ensures
        sessions_flag_events(m, ss.take(k)).len() <= sessions_flag_events(m, ss).len(),
    decreases ss.len() - k,
{
    if k < ss.len() {
        lemma_sessions_events_prefix(m, ss, k + 1);
        assert(ss.take(k + 1).drop_last() == ss.take(k));
    } else {
        assert(ss.take(k) == ss);
    }
}

fn find_flags(m: &Vec<(i32, Vec<String>)>, id: i32) -> (r: Option<&Vec<String>>)
    ensures
        match flags_of(m@, id) {
            Some(fl) => r matches Some(v) && v@ == fl,
            None => r is None,
        },
{
    let mut i: usize = m.len();
    proof {
        assert(m@.take(m@.len() as int) == m@);
    }
    while i > 0
        invariant
            0 <= i <= m@.len(),
            flags_of(m@, id) == flags_of(m@.take(i as int), id),
        decreases i,
    {
        proof {
            assert(m@.take(i as int).drop_last() == m@.take(i as int - 1));
            assert(m@.take(i as int).last() == m@[i as int - 1]);
        }
        if m[i - 1].0 == id {
            return Some(&m[i - 1].1);
        }
        i = i - 1;
    }
    None
}

} // verus!
