//! One covered source line and its per-session records.

use crate::cov::{join, Coverage};
use vstd::prelude::*;

verus! {

/// Which extra counter a line feeds in the totals.
#[derive(Debug, Clone, Copy, PartialEq, Eq, Structural)]
pub enum CoverageType {
    Standard,
    Branch,
    Method,
}

/// Cyclomatic complexity: a `(used, total)` pair or a single number.
#[derive(Debug, Clone, Copy)]
pub enum Complexity {
    TotalComplexity((i32, i32)),
    SingleComplexity(i32),
}

/// What one session recorded for one line.
#[derive(Debug, Clone, Copy)]
pub struct LineSession {
    pub id: i32,
    pub coverage: Coverage,
    pub complexity: Option<Complexity>,
}

/// A covered line: its coverage, its kind, the sessions that saw it and its
/// complexity.
#[derive(Debug, Clone)]
pub struct ReportLine {
    pub coverage: Coverage,
    pub coverage_type: CoverageType,
    pub sessions: Vec<LineSession>,
    pub complexity: Option<Complexity>,
}

pub open spec fn session_coverages(s: Seq<LineSession>) -> Seq<Coverage> {
    s.map_values(|x: LineSession| x.coverage)
}

/// The sessions whose id is among `ids`, in their order.
pub open spec fn kept_sessions(s: Seq<LineSession>, ids: Seq<i32>) -> Seq<LineSession> {
    s.filter(|x: LineSession| ids.contains(x.id))
}

pub open spec fn max_i32(a: i32, b: i32) -> i32 {
    if a >= b {
        a
    } else {
        b
    }
}

/// A complexity as a `(used, total)` pair; a single number has total 0.
pub open spec fn complexity_pair(c: Complexity) -> (i32, i32) {
    match c {
        Complexity::SingleComplexity(v) => (v, 0),
        Complexity::TotalComplexity(p) => p,
    }
}

/// Element-wise maximum of the complexity pairs that the sessions carry.
pub open spec fn max_complexity(s: Seq<LineSession>) -> Option<(i32, i32)>
    decreases s.len(),
{
    if s.len() == 0 {
        None
    } else {
        let prev = max_complexity(s.drop_last());
        match s.last().complexity {
            None => prev,
            Some(c) => {
                let p = complexity_pair(c);
                match prev {
                    None => Some(p),
                    Some(q) => Some((max_i32(q.0, p.0), max_i32(q.1, p.1))),
                }
            },
        }
    }
}

/// The joined complexity of sessions: a pair when the largest total is
/// positive, else a single number; none when no session has one.
pub open spec fn sessions_complexity(s: Seq<LineSession>) -> Option<Complexity> {
    match max_complexity(s) {
        None => None,
        Some(p) => if p.1 > 0 {
            Some(Complexity::TotalComplexity(p))
        } else {
            Some(Complexity::SingleComplexity(p.0))
        },
    }
}

impl ReportLine {
    /// The line as seen by the sessions in `session_ids` alone: none when no
    /// session is left or what is left joins to Ignore.
    pub fn filter_by_session_ids(&self, session_ids: &Vec<i32>) -> (r: Option<ReportLine>)
        ensures
            ({
                let kept = kept_sessions(self.sessions@, session_ids@);
                let c = join(session_coverages(kept));
                if kept.len() == 0 || c == Coverage::Ignore {
                    r is None
                } else {
                    &&& r is Some
                    &&& r->0.coverage == c
                    &&& r->0.coverage_type == self.coverage_type
                    &&& r->0.sessions@ == kept
                    &&& r->0.complexity == sessions_complexity(kept)
                }
            }),
            r matches Some(l) ==> l.coverage == join(session_coverages(l.sessions@)),
    {
        let ghost pred = |x: LineSession| session_ids@.contains(x.id);
        let mut valid_sessions: Vec<LineSession> = Vec::new();
        let mut i: usize = 0;
        while i < self.sessions.len()
            invariant
                0 <= i <= self.sessions@.len(),
                pred == (|x: LineSession| session_ids@.contains(x.id)),
                valid_sessions@ == self.sessions@.take(i as int).filter(pred),
            decreases self.sessions@.len() - i,
        {
            let s = self.sessions[i];
            proof {
                assert(self.sessions@.take(i as int + 1).drop_last() == self.sessions@.take(i as int));
                assert(self.sessions@.take(i as int + 1).last() == s);
                reveal(Seq::filter);
                assert(pred(s) == session_ids@.contains(s.id));
            }
            if contains_id(session_ids, s.id) {
                valid_sessions.push(s);
            }
            i = i + 1;
        }
        proof {
            assert(self.sessions@.take(self.sessions@.len() as int) == self.sessions@);
        }
        if valid_sessions.len() == 0 {
            return None;
        }
        let coverage = self.calculate_sessions_coverage(&valid_sessions);
        if let Coverage::Ignore = coverage {
            return None;
        }
        let complexity = self.calculate_sessions_complexity(&valid_sessions);
        Some(
            ReportLine {
                coverage: coverage,
                coverage_type: self.coverage_type,
                complexity: complexity,
                sessions: valid_sessions,
            },
        )
    }

    /// The join of the sessions' coverages.
    pub fn calculate_sessions_coverage(&self, sessions: &Vec<LineSession>) -> (r: Coverage)
        ensures
            r == join(session_coverages(sessions@)),
    {
        let mut all: Vec<&Coverage> = Vec::new();
        let mut i: usize = 0;
        while i < sessions.len()
            invariant
                0 <= i <= sessions@.len(),
                all@.len() == i,
                forall|k: int| 0 <= k < i ==> *all@[k] == sessions@[k].coverage,
            decreases sessions@.len() - i,
        {
            all.push(&sessions[i].coverage);
            i = i + 1;
        }
        proof {
            assert(all@.map_values(|c: &Coverage| *c) =~= session_coverages(sessions@));
        }
        Coverage::join_coverages(all)
    }

    /// The element-wise maximum of the sessions' complexities.
    pub fn calculate_sessions_complexity(&self, sessions: &Vec<LineSession>) -> (r: Option<Complexity>)
        ensures
            r == sessions_complexity(sessions@),
    {
        let mut acc: Option<(i32, i32)> = None;
        let mut i: usize = 0;
        while i < sessions.len()
            invariant
                0 <= i <= sessions@.len(),
                acc == max_complexity(sessions@.take(i as int)),
            decreases sessions@.len() - i,
        {
            proof {
                assert(sessions@.take(i as int + 1).drop_last() == sessions@.take(i as int));
                assert(sessions@.take(i as int + 1).last() == sessions@[i as int]);
            }
            match sessions[i].complexity {
                None => {},
                Some(c) => {
                    let p: (i32, i32) = match c {
                        Complexity::SingleComplexity(v) => (v, 0),
                        Complexity::TotalComplexity(p) => p,
                    };
                    acc = match acc {
                        None => Some(p),
                        Some(q) => Some(
                            (
                                if q.0 >= p.0 {
                                    q.0
                                } else {
                                    p.0
                                },
                                if q.1 >= p.1 {
                                    q.1
                                } else {
                                    p.1
                                },
                            ),
                        ),
                    };
                },
            }
            i = i + 1;
        }
        proof {
            assert(sessions@.take(sessions@.len() as int) == sessions@);
        }
        match acc {
            None => None,
            Some(p) => if p.1 > 0 {
                Some(Complexity::TotalComplexity(p))
            } else {
                Some(Complexity::SingleComplexity(p.0))
            },
        }
    }
}

/// Whether `ids` holds `id`.
pub fn contains_id(ids: &Vec<i32>, id: i32) -> (r: bool)
    ensures
        r == ids@.contains(id),
{
    let mut i: usize = 0;
    while i < ids.len()
        invariant
            0 <= i <= ids@.len(),
            forall|k: int| 0 <= k < i ==> ids@[k] != id,
        decreases ids@.len() - i,
    {
        if ids[i] == id {
            return true;
        }
        i = i + 1;
    }
    false
}

} // verus!
