//! Recorded execution groups (endpoints) and the ones a change touches.

use crate::changes::{
    analysed_names, analysis_matches, base_file_for, diff_entry, original_name, report_files_ok,
    diff_ok, run_comparison_analysis, FileChangesAnalysis,
};
use crate::cov::Coverage;
use crate::diff::DiffInput;
use crate::report::{find_file, Report};
use vstd::prelude::*;

verus! {

/// The lines of one file that a group executed, with their execution counts.
#[derive(Debug)]
pub struct SingleFileProfilingData {
    pub filename: String,
    pub ln_ex_ct: Vec<(i32, i32)>,
}

/// One recorded execution group.
#[derive(Debug)]
pub struct SingleGroupProfilingData {
    pub count: i32,
    pub group_name: String,
    pub files: Vec<SingleFileProfilingData>,
}

/// Base lines of one file that a change removed and a group executed.
#[derive(Debug)]
pub struct GroupFileImpact {
    pub filename: String,
    pub impacted_base_lines: Vec<i32>,
}

/// A group that a change touches, and where.
#[derive(Debug)]
pub struct GroupImpact {
    pub files: Vec<GroupFileImpact>,
    pub group_name: String,
}

/// All recorded groups.
#[derive(Debug)]
pub struct ProfilingData {
    pub groups: Vec<SingleGroupProfilingData>,
}

/// The profile of file `name` within a group (the last one with that name).
pub open spec fn profile_for(files: Seq<SingleFileProfilingData>, name: Seq<char>) -> Option<
    SingleFileProfilingData,
>
    decreases files.len(),
{
    if files.len() == 0 {
        None
    } else if files.last().filename@ == name {
        Some(files.last())
    } else {
        profile_for(files.drop_last(), name)
    }
}

/// The base lines whose coverage the diff removed.
pub open spec fn removed_lines(a: FileChangesAnalysis) -> Seq<i32> {
    match a.removed_diff_coverage {
        Some(v) => v@.map_values(|p: (i32, Coverage)| p.0),
        None => Seq::empty(),
    }
}

pub open spec fn profiled(p: SingleFileProfilingData, l: i32) -> bool {
    exists|i: int| 0 <= i < p.ln_ex_ct@.len() && p.ln_ex_ct@[i].0 == l
}

/// The removed lines of `a` that the group executed in that file.
pub open spec fn impacted_lines(files: Seq<SingleFileProfilingData>, a: FileChangesAnalysis) -> Seq<i32> {
    match profile_for(files, a.base_name@) {
        Some(p) => removed_lines(a).filter(|l: i32| profiled(p, l)),
        None => Seq::empty(),
    }
}

/// Per changed file with impacted lines: its base name and those lines.
pub open spec fn group_impact(g: SingleGroupProfilingData, changes: Seq<FileChangesAnalysis>) -> Seq<
    (Seq<char>, Seq<i32>),
> {
    changes.filter(|a: FileChangesAnalysis| impacted_lines(g.files@, a).len() > 0).map_values(
        |a: FileChangesAnalysis| (a.base_name@, impacted_lines(g.files@, a)),
    )
}

pub open spec fn impact_model(i: GroupImpact) -> (Seq<char>, Seq<(Seq<char>, Seq<i32>)>) {
    (
        i.group_name@,
        i.files@.map_values(|f: GroupFileImpact| (f.filename@, f.impacted_base_lines@)),
    )
}

/// Each group with at least one impacted file, with its impacts.
pub open spec fn impacts_of(
    groups: Seq<SingleGroupProfilingData>,
    changes: Seq<FileChangesAnalysis>,
) -> Seq<(Seq<char>, Seq<(Seq<char>, Seq<i32>)>)> {
    groups.filter(|g: SingleGroupProfilingData| group_impact(g, changes).len() > 0).map_values(
        |g: SingleGroupProfilingData| (g.group_name@, group_impact(g, changes)),
    )
}

fn find_profile<'a>(files: &'a Vec<SingleFileProfilingData>, name: &String) -> (r: Option<
    &'a SingleFileProfilingData,
>)
    ensures
        match profile_for(files@, name@) {
            Some(p) => r == Some(&p),
            None => r is None,
        },
{
    let mut i: usize = files.len();
    proof {
        assert(files@.take(files@.len() as int) == files@);
    }
    while i > 0
        invariant
            0 <= i <= files@.len(),
            profile_for(files@, name@) == profile_for(files@.take(i as int), name@),
        decreases i,
    {
        proof {
            assert(files@.take(i as int).drop_last() == files@.take(i as int - 1));
            assert(files@.take(i as int).last() == files@[i as int - 1]);
        }
        if files[i - 1].filename == *name {
            return Some(&files[i - 1]);
        }
        i = i - 1;
    }
    None
}

fn is_profiled(p: &SingleFileProfilingData, l: i32) -> (r: bool)
    ensures
        r == profiled(*p, l),
{
    let mut i: usize = 0;
    while i < p.ln_ex_ct.len()
        invariant
            0 <= i <= p.ln_ex_ct@.len(),
            forall|k: int| 0 <= k < i ==> p.ln_ex_ct@[k].0 != l,
        decreases p.ln_ex_ct@.len() - i,
    {
        if p.ln_ex_ct[i].0 == l {
            return true;
        }
        i = i + 1;
    }
    false
}

fn impacted_in(files: &Vec<SingleFileProfilingData>, a: &FileChangesAnalysis) -> (r: Vec<i32>)
    ensures
        r@ == impacted_lines(files@, *a),
{
    let mut out: Vec<i32> = Vec::new();
    match find_profile(files, &a.base_name) {
        None => out,
        Some(p) => match &a.removed_diff_coverage {
            None => {
                proof {
                    reveal(Seq::filter);
                    assert(removed_lines(*a) == Seq::<i32>::empty());
                }
                out
            },
            Some(removed) => {
                let ghost ls = removed@.map_values(|q: (i32, Coverage)| q.0);
                let ghost pred = |l: i32| profiled(*p, l);
                let mut i: usize = 0;
                while i < removed.len()
                    invariant
                        ls == removed@.map_values(|q: (i32, Coverage)| q.0),
                        pred == (|l: i32| profiled(*p, l)),
                        0 <= i <= removed@.len(),
                        out@ == ls.take(i as int).filter(pred),
                    decreases removed@.len() - i,
                {
                    let l = removed[i].0;
                    proof {
                        assert(ls.take(i as int + 1).drop_last() == ls.take(i as int));
                        assert(ls.take(i as int + 1).last() == l);
                        reveal(Seq::filter);
                    }
                    if is_profiled(p, l) {
                        out.push(l);
                    }
                    i = i + 1;
                }
                proof {
                    assert(ls.take(ls.len() as int) == ls);
                }
                out
            },
        },
    }
}

impl SingleGroupProfilingData {
    /// The group's impact: per changed file, the removed base lines that the
    /// group executed; none when no file has such a line.
    pub fn find_impacted_endpoints(&self, files: &Vec<FileChangesAnalysis>) -> (r: Option<
        GroupImpact,
    >)
        ensures
            match r {
                Some(i) => impact_model(i) == (self.group_name@, group_impact(*self, files@))
                    && group_impact(*self, files@).len() > 0,
                None => group_impact(*self, files@).len() == 0,
            },
    {
        let ghost pred = |a: FileChangesAnalysis| impacted_lines(self.files@, a).len() > 0;
        let ghost g = |a: FileChangesAnalysis| (a.base_name@, impacted_lines(self.files@, a));
        let ghost fm = |f: GroupFileImpact| (f.filename@, f.impacted_base_lines@);
        let mut impacts: Vec<GroupFileImpact> = Vec::new();
        let mut i: usize = 0;
        while i < files.len()
            invariant
                pred == (|a: FileChangesAnalysis| impacted_lines(self.files@, a).len() > 0),
                g == (|a: FileChangesAnalysis| (a.base_name@, impacted_lines(self.files@, a))),
                fm == (|f: GroupFileImpact| (f.filename@, f.impacted_base_lines@)),
                0 <= i <= files@.len(),
                impacts@.map_values(fm) == files@.take(i as int).filter(pred).map_values(g),
            decreases files@.len() - i,
        {
            let a = &files[i];
            let ghost prev = files@.take(i as int).filter(pred);
            proof {
                assert(files@.take(i as int + 1).drop_last() == files@.take(i as int));
                assert(files@.take(i as int + 1).last() == *a);
                reveal(Seq::filter);
            }
            let lines = impacted_in(&self.files, a);
            if lines.len() > 0 {
                let ghost before = impacts@;
                let impact = GroupFileImpact { filename: a.base_name.clone(), impacted_base_lines: lines };
                impacts.push(impact);
                proof {
                    let next = files@.take(i as int + 1).filter(pred);
                    assert(next == prev.push(*a));
                    assert(impacts@.map_values(fm) =~= before.map_values(fm).push(fm(impact)));
                    assert(next.map_values(g) =~= prev.map_values(g).push(g(*a)));
                }
            }
            i = i + 1;
        }
        proof {
            assert(files@.take(files@.len() as int) == files@);
        }
        if impacts.len() == 0 {
            return None;
        }
        Some(GroupImpact { group_name: self.group_name.clone(), files: impacts })
    }
}

/// `files` is what the comparison of `base` and `head` under `diff` gives.
pub open spec fn comparison_files(
    base: Report,
    head: Report,
    diff: Seq<(String, crate::diff::FileDiffData)>,
    files: Seq<FileChangesAnalysis>,
) -> bool {
    let kept = analysed_names(base.report_files@, head.report_files@, diff);
    &&& files.len() == kept.len()
    &&& forall|i: int|
        0 <= i < kept.len() ==> analysis_matches(
            #[trigger] files[i],
            base_file_for(base.report_files@, diff, kept[i]),
            find_file(head.report_files@, kept[i]),
            diff_entry(diff, kept[i]),
            original_name(diff, kept[i]),
            kept[i],
        )
}

impl ProfilingData {
    /// The impacts of each group on a list of file analyses.
    pub fn find_impacted_endpoints_in(&self, files: &Vec<FileChangesAnalysis>) -> (r: Vec<GroupImpact>)
        ensures
            r@.map_values(|i: GroupImpact| impact_model(i)) == impacts_of(self.groups@, files@),
    {
        let ghost pred = |g: SingleGroupProfilingData| group_impact(g, files@).len() > 0;
        let ghost gm = |g: SingleGroupProfilingData| (g.group_name@, group_impact(g, files@));
        let mut out: Vec<GroupImpact> = Vec::new();
        let mut i: usize = 0;
        while i < self.groups.len()
            invariant
                pred == (|g: SingleGroupProfilingData| group_impact(g, files@).len() > 0),
                gm == (|g: SingleGroupProfilingData| (g.group_name@, group_impact(g, files@))),
                0 <= i <= self.groups@.len(),
                out@.map_values(|i: GroupImpact| impact_model(i)) == self.groups@.take(i as int).filter(
                    pred,
                ).map_values(gm),
            decreases self.groups@.len() - i,
        {
            let group = &self.groups[i];
            let ghost prev = self.groups@.take(i as int).filter(pred);
            proof {
                assert(self.groups@.take(i as int + 1).drop_last() == self.groups@.take(i as int));
                assert(self.groups@.take(i as int + 1).last() == *group);
                reveal(Seq::filter);
            }
            match group.find_impacted_endpoints(files) {
                Some(impact) => {
                    let ghost before = out@;
                    out.push(impact);
                    proof {
                        let next = self.groups@.take(i as int + 1).filter(pred);
                        assert(next == prev.push(*group));
                        assert(out@.map_values(|i: GroupImpact| impact_model(i)) =~= before.map_values(
                            |i: GroupImpact| impact_model(i),
                        ).push(impact_model(impact)));
                        assert(next.map_values(gm) =~= prev.map_values(gm).push(gm(*group)));
                    }
                },
                None => {},
            }
            i = i + 1;
        }
        proof {
            assert(self.groups@.take(self.groups@.len() as int) == self.groups@);
        }
        out
    }

    /// Runs the comparison of `base_report` and `head_report` under `diff`,
    /// then finds the groups whose executed lines the change removed.
    pub fn find_impacted_endpoints(
        &self,
        base_report: &Report,
        head_report: &Report,
        diff: DiffInput,
    ) -> (r: Vec<GroupImpact>)
        requires
            report_files_ok(*base_report),
            report_files_ok(*head_report),
            diff_ok(diff@),
        ensures
            exists|files: Seq<FileChangesAnalysis>|
                comparison_files(*base_report, *head_report, diff@, files) && r@.map_values(
                    |i: GroupImpact| impact_model(i),
                ) == impacts_of(self.groups@, files),
    {
        let k = run_comparison_analysis(base_report, head_report, &diff);
        let r = self.find_impacted_endpoints_in(&k.files);
        proof {
            assert(comparison_files(*base_report, *head_report, diff@, k.files@));
        }
        r
    }
}

} // verus!
