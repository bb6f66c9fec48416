//! Comparison of a base and a head report under a diff.

use crate::cov::Coverage;
use crate::diff::{
    get_exclusions_from_diff, int_set, only_on_base, only_on_head, segments_fit, strictly_sorted,
    DiffInput, DiffSegment, FileDiffData,
};
use crate::report::{contains_name, find_file, names_contain, Report};
use crate::file::{counts_of, find_line, has_line, line_values, lines_fit, FileTotals, ReportFile};
use crate::line::ReportLine;
use vstd::prelude::*;

verus! {

/// A line whose coverage changed without the diff explaining it:
/// `((base_line, base_coverage), (head_line, head_coverage))`, with `None`
/// where that side has no such line.
pub type LineChange = ((i64, Option<Coverage>), (i64, Option<Coverage>));

/// The smallest line at or after `c` that `v` (ascending) does not hold.
pub open spec fn skip(c: int, v: Seq<i32>) -> int
    decreases v.len(),
{
    if v.len() == 0 {
        c
    } else if v[0] < c {
        skip(c, v.drop_first())
    } else if v[0] == c {
        skip(c + 1, v.drop_first())
    } else {
        c
    }
}

/// Skipping never goes back, and lands on a line that `v` does not hold.
pub proof fn lemma_skip(c: int, v: Seq<i32>)
    requires
        strictly_sorted(v),
    ensures
        skip(c, v) >= c,
        !int_set(v).contains(skip(c, v)),
        forall|x: int| c <= x < skip(c, v) ==> int_set(v).contains(x),
    decreases v.len(),
{
    if v.len() > 0 {
        let t = v.drop_first();
        assert(strictly_sorted(t));
        if v[0] < c {
            lemma_skip(c, t);
            assert forall|x: int| int_set(v).contains(x) <==> (x == v[0] || int_set(t).contains(x)) by {
                if int_set(v).contains(x) {
                    let i = choose|i: int| 0 <= i < v.len() && v[i] as int == x;
                    if i > 0 {
                        assert(t[i - 1] as int == x);
                    }
                }
                if int_set(t).contains(x) {
                    let i = choose|i: int| 0 <= i < t.len() && t[i] as int == x;
                    assert(v[i + 1] as int == x);
                }
                if x == v[0] {
                    assert(v[0] as int == x);
                }
            }
        } else if v[0] == c {
            lemma_skip(c + 1, t);
            assert forall|x: int| int_set(v).contains(x) <==> (x == v[0] || int_set(t).contains(x)) by {
                if int_set(v).contains(x) {
                    let i = choose|i: int| 0 <= i < v.len() && v[i] as int == x;
                    if i > 0 {
                        assert(t[i - 1] as int == x);
                    }
                }
                if int_set(t).contains(x) {
                    let i = choose|i: int| 0 <= i < t.len() && t[i] as int == x;
                    assert(v[i + 1] as int == x);
                }
                if x == v[0] {
                    assert(v[0] as int == x);
                }
            }
        } else {
            assert forall|x: int| int_set(v).contains(x) implies x >= v[0] by {
                let i = choose|i: int| 0 <= i < v.len() && v[i] as int == x;
                if i > 0 {
                    assert(v[0] < v[i]);
                }
            }
        }
    }
}

proof fn lemma_skip_suffix(c: int, v: Seq<i32>, p: int)
    requires
        0 <= p <= v.len(),
        forall|i: int| 0 <= i < p ==> v[i] < c,
    ensures
        skip(c, v) == skip(c, v.subrange(p, v.len() as int)),
    decreases p,
{
    if p > 0 {
        let t = v.drop_first();
        assert(v[0] < c);
        lemma_skip_suffix(c, t, p - 1);
        assert(t.subrange(p - 1, t.len() as int) == v.subrange(p, v.len() as int));
    }
    else {
        assert(v.subrange(0, v.len() as int) == v);
    }
}

/// A strictly ascending vector of `i32` has at most 2^32 entries.
proof fn lemma_sorted_len(v: Seq<i32>)
    requires
        strictly_sorted(v),
    ensures
        v.len() <= 0x1_0000_0000,
{
    if v.len() > 0 {
        lemma_sorted_step(v, v.len() - 1);
    }
}

proof fn lemma_sorted_step(v: Seq<i32>, k: int)
    requires
        strictly_sorted(v),
        0 <= k < v.len(),
    ensures
        v[k] >= v[0] + k,
    decreases k,
{
    if k > 0 {
        lemma_sorted_step(v, k - 1);
        assert(v[k - 1] < v[k]);
    }
}

/// The lines of an optional file (none for an absent file).
pub open spec fn lines_of(f: Option<&ReportFile>) -> Seq<(i32, ReportLine)> {
    match f {
        Some(f) => f.lines@,
        None => Seq::empty(),
    }
}

/// One past the last line, or 0.
pub open spec fn eof_of(s: Seq<(i32, ReportLine)>) -> int {
    if s.len() == 0 {
        0
    } else {
        s.last().0 + 1
    }
}

pub open spec fn coverage_at(s: Seq<(i32, ReportLine)>, n: int) -> Option<Coverage> {
    match find_line(s, n) {
        Some(l) => Some(l.coverage),
        None => None,
    }
}

/// What the walk reports at base line `nb` and head line `nh`.
pub open spec fn change_at(
    bl: Seq<(i32, ReportLine)>,
    hl: Seq<(i32, ReportLine)>,
    nb: int,
    nh: int,
) -> Seq<LineChange> {
    let b = coverage_at(bl, nb);
    let h = coverage_at(hl, nh);
    if b is None && h is None {
        Seq::empty()
    } else if b is Some && h is Some && b == h {
        Seq::empty()
    } else {
        seq![((nb as i64, b), (nh as i64, h))]
    }
}

/// The walk from cursors `(cb, ch)`: while either is before its end of
/// file, advance both, skip lines that exist on one side only, and compare.
/// `fuel` bounds the number of steps.
pub open spec fn walk(
    bl: Seq<(i32, ReportLine)>,
    hl: Seq<(i32, ReportLine)>,
    ob: Seq<i32>,
    oh: Seq<i32>,
    cb: int,
    ch: int,
    fuel: nat,
) -> Seq<LineChange>
    decreases fuel,
{
    if fuel == 0 || !(cb < eof_of(bl) || ch < eof_of(hl)) {
        Seq::empty()
    } else {
        let nb = skip(cb + 1, ob);
        let nh = skip(ch + 1, oh);
        change_at(bl, hl, nb, nh) + walk(bl, hl, ob, oh, nb, nh, (fuel - 1) as nat)
    }
}

/// The unexpected changes of a file pair: the walk from line 0 on both
/// sides, with `eof_b + eof_h` steps of fuel.
pub open spec fn unexpected_changes(
    bl: Seq<(i32, ReportLine)>,
    hl: Seq<(i32, ReportLine)>,
    ob: Seq<i32>,
    oh: Seq<i32>,
) -> Seq<LineChange> {
    walk(bl, hl, ob, oh, 0, 0, (eof_of(bl) + eof_of(hl)) as nat)
}

/// The walk ends within `eof_b + eof_h` steps: from cursors at or after 0,
/// fuel of at least the distance to either end of file is enough, and more
/// fuel changes nothing.
pub proof fn lemma_walk_terminates(
    bl: Seq<(i32, ReportLine)>,
    hl: Seq<(i32, ReportLine)>,
    ob: Seq<i32>,
    oh: Seq<i32>,
    cb: int,
    ch: int,
    fuel: nat,
)
    requires
        strictly_sorted(ob),
        strictly_sorted(oh),
        fuel >= eof_of(bl) - cb,
        fuel >= eof_of(hl) - ch,
    ensures
        walk(bl, hl, ob, oh, cb, ch, fuel) == walk(bl, hl, ob, oh, cb, ch, fuel + 1),
    decreases fuel,
{
    if cb < eof_of(bl) || ch < eof_of(hl) {
        let nb = skip(cb + 1, ob);
        let nh = skip(ch + 1, oh);
        lemma_skip(cb + 1, ob);
        lemma_skip(ch + 1, oh);
        assert(fuel > 0);
        lemma_walk_terminates(bl, hl, ob, oh, nb, nh, (fuel - 1) as nat);
    }
}

/// Two identical files with no diff lines give no unexpected change.
pub proof fn lemma_walk_identical(
    lines: Seq<(i32, ReportLine)>,
    c: int,
    fuel: nat,
)
    ensures
        walk(lines, lines, Seq::empty(), Seq::empty(), c, c, fuel) == Seq::<LineChange>::empty(),
    decreases fuel,
{
    if fuel > 0 && c < eof_of(lines) {
        assert(skip(c + 1, Seq::<i32>::empty()) == c + 1);
        lemma_walk_identical(lines, c + 1, (fuel - 1) as nat);
    }
}

/// The next cursor after `c`: one step, then past the lines in `v`.
/// `p` indexes the first entry of `v` not yet passed.
fn skip_from(c: i64, v: &Vec<i32>, p: usize) -> (r: (i64, usize))
    requires
        strictly_sorted(v@),
        0 <= p <= v@.len(),
        forall|i: int| 0 <= i < p ==> v@[i] <= c,
        0 <= c,
        c + 1 + (v@.len() - p) < i64::MAX,
    ensures
        r.0 == skip(c + 1, v@),
        p <= r.1 <= v@.len(),
        c + 1 <= r.0 <= c + 1 + (r.1 - p),
        forall|i: int| 0 <= i < r.1 ==> v@[i] < r.0,
{
    let ghost target = skip(c + 1, v@);
    let mut x: i64 = c + 1;
    let mut q: usize = p;
    proof {
        lemma_skip_suffix(c + 1, v@, p as int);
    }
    while q < v.len() && (v[q] as i64) <= x
        invariant
            strictly_sorted(v@),
            p <= q <= v@.len(),
            c + 1 <= x <= c + 1 + (q - p),
            c + 1 + (v@.len() - p) < i64::MAX,
            skip(x as int, v@.subrange(q as int, v@.len() as int)) == target,
            forall|i: int| 0 <= i < q ==> v@[i] < x,
        decreases v@.len() - q,
    {
        proof {
            let t = v@.subrange(q as int, v@.len() as int);
            assert(t[0] == v@[q as int]);
            assert(t.drop_first() == v@.subrange(q as int + 1, v@.len() as int));
        }
        if v[q] as i64 == x {
            x = x + 1;
        }
        q = q + 1;
    }
    proof {
        let t = v@.subrange(q as int, v@.len() as int);
        if q < v@.len() {
            assert(t[0] == v@[q as int]);
        }
    }
    (x, q)
}

/// The unexpected line changes of a file pair; `ob` and `oh` hold the lines
/// that exist only on the base and only on the head side.
pub fn find_unexpected_changes(
    old_file: Option<&ReportFile>,
    new_file: Option<&ReportFile>,
    ob: &Vec<i32>,
    oh: &Vec<i32>,
) -> (r: Vec<LineChange>)
    requires
        old_file matches Some(f) ==> f.wf(),
        new_file matches Some(f) ==> f.wf(),
        strictly_sorted(ob@),
        strictly_sorted(oh@),
    ensures
        r@ == unexpected_changes(lines_of(old_file), lines_of(new_file), ob@, oh@),
{
    let ghost bl = lines_of(old_file);
    let ghost hl = lines_of(new_file);
    let base_eof: i64 = match old_file {
        None => 0,
        Some(f) => f.get_eof() as i64,
    };
    let head_eof: i64 = match new_file {
        None => 0,
        Some(f) => f.get_eof() as i64,
    };
    proof {
        if bl.len() > 0 {
            assert(has_line(bl, base_eof - 1));
            assert(bl[bl.len() - 1].0 < base_eof);
            let i = choose|i: int| 0 <= i < bl.len() && bl[i].0 == base_eof - 1;
            if i < bl.len() - 1 {
                assert(bl[i].0 < bl[bl.len() - 1].0);
            }
        }
        if hl.len() > 0 {
            assert(has_line(hl, head_eof - 1));
            assert(hl[hl.len() - 1].0 < head_eof);
            let i = choose|i: int| 0 <= i < hl.len() && hl[i].0 == head_eof - 1;
            if i < hl.len() - 1 {
                assert(hl[i].0 < hl[hl.len() - 1].0);
            }
        }
        assert(base_eof == eof_of(bl));
        assert(head_eof == eof_of(hl));
        lemma_sorted_len(ob@);
        lemma_sorted_len(oh@);
    }
    let ghost fuel: nat = (eof_of(bl) + eof_of(hl)) as nat;
    let mut out: Vec<LineChange> = Vec::new();
    let mut cb: i64 = 0;
    let mut ch: i64 = 0;
    let mut pb: usize = 0;
    let mut ph: usize = 0;
    let ghost mut steps: int = 0;
    while cb < base_eof || ch < head_eof
        invariant
            bl == lines_of(old_file),
            hl == lines_of(new_file),
            old_file matches Some(f) ==> f.wf(),
            new_file matches Some(f) ==> f.wf(),
            strictly_sorted(ob@),
            strictly_sorted(oh@),
            ob@.len() <= 0x1_0000_0000,
            oh@.len() <= 0x1_0000_0000,
            base_eof == eof_of(bl),
            head_eof == eof_of(hl),
            0 <= base_eof <= i32::MAX,
            0 <= head_eof <= i32::MAX,
            fuel == eof_of(bl) + eof_of(hl),
            0 <= steps,
            steps <= cb <= steps + pb,
            steps <= ch <= steps + ph,
            pb <= ob@.len(),
            ph <= oh@.len(),
            forall|i: int| 0 <= i < pb ==> ob@[i] <= cb,
            forall|i: int| 0 <= i < ph ==> oh@[i] <= ch,
            steps <= fuel,
            out@ + walk(bl, hl, ob@, oh@, cb as int, ch as int, (fuel - steps) as nat) == walk(
                bl,
                hl,
                ob@,
                oh@,
                0,
                0,
                fuel,
            ),
        decreases fuel - steps,
    {
        assert(steps < fuel);
        let (nb, qb) = skip_from(cb, ob, pb);
        let (nh, qh) = skip_from(ch, oh, ph);
        let b = match old_file {
            None => None,
            Some(f) => lookup_coverage(f, nb),
        };
        let h = match new_file {
            None => None,
            Some(f) => lookup_coverage(f, nh),
        };
        let ghost before = out@;
        match (b, h) {
            (None, None) => {},
            (Some(x), Some(y)) => {
                if x != y {
                    out.push(((nb, b), (nh, h)));
                }
            },
            _ => {
                out.push(((nb, b), (nh, h)));
            },
        }
        proof {
            assert(out@ == before + change_at(bl, hl, nb as int, nh as int));
            assert(walk(bl, hl, ob@, oh@, cb as int, ch as int, (fuel - steps) as nat)
                == change_at(bl, hl, nb as int, nh as int) + walk(
                bl,
                hl,
                ob@,
                oh@,
                nb as int,
                nh as int,
                (fuel - steps - 1) as nat,
            ));
            assert(before + (change_at(bl, hl, nb as int, nh as int) + walk(
                bl,
                hl,
                ob@,
                oh@,
                nb as int,
                nh as int,
                (fuel - steps - 1) as nat,
            )) == out@ + walk(bl, hl, ob@, oh@, nb as int, nh as int, (fuel - steps - 1) as nat));
            steps = steps + 1;
        }
        cb = nb;
        ch = nh;
        pb = qb;
        ph = qh;
    }
    proof {
        assert(walk(bl, hl, ob@, oh@, cb as int, ch as int, (fuel - steps) as nat) == Seq::<
            LineChange,
        >::empty());
        assert(out@ + Seq::<LineChange>::empty() == out@);
    }
    out
}

/// The coverage of line `n` of a file, if it has that line.
fn lookup_coverage(f: &ReportFile, n: i64) -> (r: Option<Coverage>)
    requires
        f.wf(),
    ensures
        r == coverage_at(f.lines@, n as int),
{
    if n < 1 || n > i32::MAX as i64 {
        proof {
            if has_line(f.lines@, n as int) {
                let i = choose|i: int| 0 <= i < f.lines@.len() && f.lines@[i].0 == n;
                assert(0 < f.lines@[i].0 < i32::MAX);
            }
        }
        return None;
    }
    match f.get_line(n as i32) {
        Some(l) => Some(l.coverage),
        None => None,
    }
}

/// What one file pair looks like under the diff.
#[derive(Debug)]
pub struct FileChangesAnalysis {
    pub base_name: String,
    pub head_name: String,
    pub file_was_added_by_diff: bool,
    pub file_was_removed_by_diff: bool,
    pub base_coverage: Option<FileTotals>,
    pub head_coverage: Option<FileTotals>,
    pub removed_diff_coverage: Option<Vec<(i32, Coverage)>>,
    pub added_diff_coverage: Option<Vec<(i32, Coverage)>>,
    pub unexpected_line_changes: Vec<LineChange>,
    pub lines_only_on_base: Vec<i32>,
    pub lines_only_on_head: Vec<i32>,
}

/// The coverage of each line of `ls` that the file has, in the order of `ls`.
pub open spec fn diff_coverage(lines: Seq<(i32, ReportLine)>, ls: Seq<i32>) -> Seq<(i32, Coverage)>
    decreases ls.len(),
{
    if ls.len() == 0 {
        Seq::empty()
    } else {
        let prev = diff_coverage(lines, ls.drop_last());
        match coverage_at(lines, ls.last() as int) {
            Some(c) => prev.push((ls.last(), c)),
            None => prev,
        }
    }
}

fn collect_diff_coverage(f: &ReportFile, ls: &Vec<i32>) -> (r: Vec<(i32, Coverage)>)
    requires
        f.wf(),
    ensures
        r@ == diff_coverage(f.lines@, ls@),
{
    let mut out: Vec<(i32, Coverage)> = Vec::new();
    let mut i: usize = 0;
    while i < ls.len()
        invariant
            f.wf(),
            0 <= i <= ls@.len(),
            out@ == diff_coverage(f.lines@, ls@.take(i as int)),
        decreases ls@.len() - i,
    {
        proof {
            assert(ls@.take(i as int + 1).drop_last() == ls@.take(i as int));
            assert(ls@.take(i as int + 1).last() == ls@[i as int]);
        }
        match lookup_coverage(f, ls[i] as i64) {
            Some(c) => out.push((ls[i], c)),
            None => {},
        }
        i = i + 1;
    }
    proof {
        assert(ls@.take(ls@.len() as int) == ls@);
    }
    out
}

pub open spec fn opt_file(f: Option<&ReportFile>) -> Option<ReportFile> {
    match f {
        Some(f) => Some(*f),
        None => None,
    }
}

pub open spec fn file_lines(f: Option<ReportFile>) -> Seq<(i32, ReportLine)> {
    match f {
        Some(f) => f.lines@,
        None => Seq::empty(),
    }
}

pub open spec fn opt_diff(d: Option<&FileDiffData>) -> Option<FileDiffData> {
    match d {
        Some(d) => Some(*d),
        None => None,
    }
}

pub open spec fn hunks_in(d: Option<FileDiffData>) -> Seq<DiffSegment> {
    match d {
        Some(d) => d.2@,
        None => Seq::empty(),
    }
}

pub open spec fn kind_is(d: Option<FileDiffData>, k: Seq<char>) -> bool {
    match d {
        Some(d) => d.0@ == k,
        None => false,
    }
}

pub open spec fn is_new(d: Option<FileDiffData>) -> bool {
    kind_is(d, seq!['n', 'e', 'w'])
}

pub open spec fn was_deleted(d: Option<FileDiffData>) -> bool {
    kind_is(d, seq!['d', 'e', 'l', 'e', 't', 'e', 'd'])
}

/// Whether a file pair yields no analysis: both sides absent, or both
/// present with no diff lines and (unless added or deleted) no unexpected
/// change.
pub open spec fn analysis_dropped(
    old: Option<ReportFile>,
    new: Option<ReportFile>,
    d: Option<FileDiffData>,
) -> bool {
    ||| old is None && new is None
    ||| {
        &&& old is Some
        &&& new is Some
        &&& only_on_base(hunks_in(d)) == Set::<int>::empty()
        &&& only_on_head(hunks_in(d)) == Set::<int>::empty()
        &&& (is_new(d) || was_deleted(d) || unexpected_changes(
            file_lines(old),
            file_lines(new),
            Seq::empty(),
            Seq::empty(),
        ) == Seq::<LineChange>::empty())
    }
}

pub open spec fn totals_match(t: Option<FileTotals>, f: Option<ReportFile>) -> bool {
    match (t, f) {
        (Some(t), Some(f)) => t.counts() == counts_of(line_values(f.lines@)) && t.sessions == 0,
        (None, None) => true,
        _ => false,
    }
}

pub open spec fn diff_coverage_match(
    c: Option<Vec<(i32, Coverage)>>,
    f: Option<ReportFile>,
    ls: Seq<i32>,
) -> bool {
    match (c, f) {
        (Some(c), Some(f)) => c@ == diff_coverage(f.lines@, ls),
        (None, None) => true,
        _ => false,
    }
}

/// `a` is the analysis of the pair `(old, new)` under the file's diff `d`,
/// with the names `base_name` and `head_name`.
pub open spec fn analysis_matches(
    a: FileChangesAnalysis,
    old: Option<ReportFile>,
    new: Option<ReportFile>,
    d: Option<FileDiffData>,
    base_name: Seq<char>,
    head_name: Seq<char>,
) -> bool {
    &&& a.base_name@ == base_name
    &&& a.head_name@ == head_name
    &&& a.file_was_added_by_diff == is_new(d)
    &&& a.file_was_removed_by_diff == was_deleted(d)
    &&& strictly_sorted(a.lines_only_on_base@)
    &&& strictly_sorted(a.lines_only_on_head@)
    &&& int_set(a.lines_only_on_base@) == only_on_base(hunks_in(d))
    &&& int_set(a.lines_only_on_head@) == only_on_head(hunks_in(d))
    &&& totals_match(a.base_coverage, old)
    &&& totals_match(a.head_coverage, new)
    &&& diff_coverage_match(a.removed_diff_coverage, old, a.lines_only_on_base@)
    &&& diff_coverage_match(a.added_diff_coverage, new, a.lines_only_on_head@)
    &&& a.unexpected_line_changes@ == if is_new(d) || was_deleted(d) {
        Seq::empty()
    } else {
        unexpected_changes(
            file_lines(old),
            file_lines(new),
            a.lines_only_on_base@,
            a.lines_only_on_head@,
        )
    }
}

/// A file pair can be analysed: each present file is well formed and its
/// totals fit, and the diff's cursors fit.
pub open spec fn pair_ok(old: Option<ReportFile>, new: Option<ReportFile>, d: Option<FileDiffData>) -> bool {
    &&& old matches Some(f) ==> f.wf() && lines_fit(line_values(f.lines@))
    &&& new matches Some(f) ==> f.wf() && lines_fit(line_values(f.lines@))
    &&& segments_fit(hunks_in(d))
}

proof fn lemma_empty_int_set(v: Seq<i32>)
    requires
        int_set(v) == Set::<int>::empty(),
    ensures
        v == Seq::<i32>::empty(),
{
    if v.len() > 0 {
        assert(int_set(v).contains(v[0] as int));
    }
}

fn string_is(s: &String, lit: &str) -> (r: bool)
    ensures
        r == (s@ == lit@),
{
    let t = String::from_str(lit);
    *s == t
}

/// The analysis of one file pair, or none when there is nothing to say
/// (see `analysis_dropped`).
pub fn run_filereport_analysis(
    old_file: Option<&ReportFile>,
    new_file: Option<&ReportFile>,
    diff_data: Option<&FileDiffData>,
    names_tuple: (&str, &str),
) -> (r: Option<FileChangesAnalysis>)
    requires
        pair_ok(opt_file(old_file), opt_file(new_file), opt_diff(diff_data)),
    ensures
        match r {
            Some(a) => !analysis_dropped(opt_file(old_file), opt_file(new_file), opt_diff(diff_data))
                && analysis_matches(
                a,
                opt_file(old_file),
                opt_file(new_file),
                opt_diff(diff_data),
                names_tuple.0@,
                names_tuple.1@,
            ),
            None => analysis_dropped(opt_file(old_file), opt_file(new_file), opt_diff(diff_data)),
        },
{
    let ghost old = opt_file(old_file);
    let ghost new = opt_file(new_file);
    let ghost d = opt_diff(diff_data);
    let (base_name, head_name) = names_tuple;
    proof {
        reveal_strlit("new");
        reveal_strlit("deleted");
        assert("new"@ =~= seq!['n', 'e', 'w']);
        assert("deleted"@ =~= seq!['d', 'e', 'l', 'e', 't', 'e', 'd']);
    }
    let is_new_file = match diff_data {
        None => false,
        Some(value) => string_is(&value.0, "new"),
    };
    let was_deleted_file = match diff_data {
        None => false,
        Some(value) => string_is(&value.0, "deleted"),
    };
    let (only_base, only_head) = get_exclusions_from_diff(
        match diff_data {
            None => None,
            Some(x) => Some(&x.2),
        },
    );
    let removed_diff_coverage = match old_file {
        None => None,
        Some(f) => Some(collect_diff_coverage(f, &only_base)),
    };
    let added_diff_coverage = match new_file {
        None => None,
        Some(f) => Some(collect_diff_coverage(f, &only_head)),
    };
    assert(is_new_file == is_new(d));
    assert(was_deleted_file == was_deleted(d));
    let unexpected = if !is_new_file && !was_deleted_file {
        find_unexpected_changes(old_file, new_file, &only_base, &only_head)
    } else {
        Vec::new()
    };
    proof {
        assert(file_lines(old) == lines_of(old_file));
        assert(file_lines(new) == lines_of(new_file));
    }
    if old_file.is_none() && new_file.is_none() {
        return None;
    }
    if old_file.is_some() && new_file.is_some() {
        let has_removed = match &removed_diff_coverage {
            None => false,
            Some(x) => x.len() > 0,
        };
        let has_added = match &added_diff_coverage {
            None => false,
            Some(x) => x.len() > 0,
        };
        if unexpected.len() == 0 && !has_removed && !has_added && only_base.len() == 0
            && only_head.len() == 0 {
            proof {
                assert(only_base@ =~= Seq::<i32>::empty());
                assert(only_head@ =~= Seq::<i32>::empty());
                assert(int_set(only_base@) =~= Set::<int>::empty());
                assert(int_set(only_head@) =~= Set::<int>::empty());
            }
            return None;
        }
        proof {
            if only_on_base(hunks_in(d)) == Set::<int>::empty() && only_on_head(hunks_in(d))
                == Set::<int>::empty() {
                lemma_empty_int_set(only_base@);
                lemma_empty_int_set(only_head@);
                assert(diff_coverage(file_lines(old), only_base@) == Seq::<(i32, Coverage)>::empty());
                assert(diff_coverage(file_lines(new), only_head@) == Seq::<(i32, Coverage)>::empty());
            }
        }
    }
    let base_coverage = match old_file {
        None => None,
        Some(f) => Some(f.get_totals()),
    };
    let head_coverage = match new_file {
        None => None,
        Some(f) => Some(f.get_totals()),
    };
    Some(
        FileChangesAnalysis {
            base_name: String::from_str(base_name),
            head_name: String::from_str(head_name),
            file_was_added_by_diff: is_new_file,
            file_was_removed_by_diff: was_deleted_file,
            base_coverage,
            head_coverage,
            removed_diff_coverage,
            added_diff_coverage,
            unexpected_line_changes: unexpected,
            lines_only_on_base: only_base,
            lines_only_on_head: only_head,
        },
    )
}

/// Hits, misses and partials among the lines a patch adds.
#[derive(Debug, Clone, Copy, PartialEq, Eq, Structural)]
pub struct ChangePatchTotals {
    pub hits: i32,
    pub misses: i32,
    pub partials: i32,
}

impl ChangePatchTotals {
    /// The patch coverage as a ratio `(hits, hits + misses + partials)`, or
    /// none when no added line counts.
    pub fn coverage_ratio(&self) -> (r: Option<(i64, i64)>)
        ensures
            ({
                let total = self.hits + self.misses + self.partials;
                if total == 0 {
                    r is None
                } else {
                    r == Some((self.hits as i64, total as i64))
                }
            }),
    {
        let total = self.hits as i64 + self.misses as i64 + self.partials as i64;
        if total == 0 {
            None
        } else {
            Some((self.hits as i64, total))
        }
    }
}

#[derive(Debug, Clone, Copy, PartialEq, Eq, Structural)]
pub struct ChangeAnalysisSummary {
    pub patch_totals: ChangePatchTotals,
}

/// The analysed files and the patch summary.
#[derive(Debug)]
pub struct ChangeAnalysis {
    pub files: Vec<FileChangesAnalysis>,
    pub changes_summary: ChangeAnalysisSummary,
}

/// Hits, misses and partials as integers.
pub struct PatchCounts {
    pub hits: int,
    pub misses: int,
    pub partials: int,
}

pub open spec fn coverage_counts(s: Seq<(i32, Coverage)>) -> PatchCounts
    decreases s.len(),
{
    if s.len() == 0 {
        PatchCounts { hits: 0, misses: 0, partials: 0 }
    } else {
        let p = coverage_counts(s.drop_last());
        let c = s.last().1;
        PatchCounts {
            hits: p.hits + if c is Hit {
                1int
            } else {
                0
            },
            misses: p.misses + if c is Miss {
                1int
            } else {
                0
            },
            partials: p.partials + if c is Partial {
                1int
            } else {
                0
            },
        }
    }
}

pub open spec fn added_of(a: FileChangesAnalysis) -> Seq<(i32, Coverage)> {
    match a.added_diff_coverage {
        Some(v) => v@,
        None => Seq::empty(),
    }
}

/// Counts over the added lines of all files.
pub open spec fn patch_counts(files: Seq<FileChangesAnalysis>) -> PatchCounts
    decreases files.len(),
{
    if files.len() == 0 {
        PatchCounts { hits: 0, misses: 0, partials: 0 }
    } else {
        let p = patch_counts(files.drop_last());
        let c = coverage_counts(added_of(files.last()));
        PatchCounts {
            hits: p.hits + c.hits,
            misses: p.misses + c.misses,
            partials: p.partials + c.partials,
        }
    }
}

/// A count, held at `i32::MAX` beyond it.
pub open spec fn capped(x: int) -> int {
    if x > i32::MAX {
        i32::MAX as int
    } else {
        x
    }
}

proof fn lemma_coverage_counts_nonneg(s: Seq<(i32, Coverage)>)
    ensures
        coverage_counts(s).hits >= 0,
        coverage_counts(s).misses >= 0,
        coverage_counts(s).partials >= 0,
    decreases s.len(),
{
    if s.len() > 0 {
        lemma_coverage_counts_nonneg(s.drop_last());
    }
}

proof fn lemma_patch_counts_nonneg(files: Seq<FileChangesAnalysis>)
    ensures
        patch_counts(files).hits >= 0,
        patch_counts(files).misses >= 0,
        patch_counts(files).partials >= 0,
    decreases files.len(),
{
    if files.len() > 0 {
        lemma_patch_counts_nonneg(files.drop_last());
        lemma_coverage_counts_nonneg(added_of(files.last()));
    }
}

fn bump(x: i32) -> (r: i32)
    ensures
        r == if x == i32::MAX {
            x as int
        } else {
            x + 1
        },
{
    if x < i32::MAX {
        x + 1
    } else {
        x
    }
}

/// Counts the Hit, Miss and Partial lines among all files' added lines.
/// Ignore counts nothing; a count beyond `i32::MAX` stays there.
pub fn produce_summary_from_changes_list(changes_list: &Vec<FileChangesAnalysis>) -> (r:
    ChangeAnalysisSummary)
    ensures
        r.patch_totals.hits == capped(patch_counts(changes_list@).hits),
        r.patch_totals.misses == capped(patch_counts(changes_list@).misses),
        r.patch_totals.partials == capped(patch_counts(changes_list@).partials),
{
    let ghost files = changes_list@;
    let mut hits: i32 = 0;
    let mut misses: i32 = 0;
    let mut partials: i32 = 0;
    let mut i: usize = 0;
    while i < changes_list.len()
        invariant
            files == changes_list@,
            0 <= i <= files.len(),
            hits == capped(patch_counts(files.take(i as int)).hits),
            misses == capped(patch_counts(files.take(i as int)).misses),
            partials == capped(patch_counts(files.take(i as int)).partials),
        decreases files.len() - i,
    {
        let ghost p = patch_counts(files.take(i as int));
        proof {
            assert(files.take(i as int + 1).drop_last() == files.take(i as int));
            assert(files.take(i as int + 1).last() == files[i as int]);
            lemma_patch_counts_nonneg(files.take(i as int));
        }
        match &changes_list[i].added_diff_coverage {
            None => {
                proof {
                    assert(added_of(files[i as int]) == Seq::<(i32, Coverage)>::empty());
                }
            },
            Some(cov_vec) => {
                let mut k: usize = 0;
                while k < cov_vec.len()
                    invariant
                        0 <= k <= cov_vec@.len(),
                        p.hits >= 0 && p.misses >= 0 && p.partials >= 0,
                        hits == capped(p.hits + coverage_counts(cov_vec@.take(k as int)).hits),
                        misses == capped(p.misses + coverage_counts(cov_vec@.take(k as int)).misses),
                        partials == capped(
                            p.partials + coverage_counts(cov_vec@.take(k as int)).partials,
                        ),
                    decreases cov_vec@.len() - k,
                {
                    proof {
                        assert(cov_vec@.take(k as int + 1).drop_last() == cov_vec@.take(k as int));
                        assert(cov_vec@.take(k as int + 1).last() == cov_vec@[k as int]);
                        lemma_coverage_counts_nonneg(cov_vec@.take(k as int));
                    }
                    match cov_vec[k].1 {
                        Coverage::Hit => hits = bump(hits),
                        Coverage::Miss => misses = bump(misses),
                        Coverage::Partial(_) => partials = bump(partials),
                        Coverage::Ignore => {},
                    }
                    k = k + 1;
                }
                proof {
                    assert(cov_vec@.take(cov_vec@.len() as int) == cov_vec@);
                }
            },
        }
        i = i + 1;
    }
    proof {
        assert(files.take(files.len() as int) == files);
    }
    ChangeAnalysisSummary { patch_totals: ChangePatchTotals { hits, misses, partials } }
}

/// The head-side name of a base file: the entry that names it as renamed
/// (the last such), or its own name.
pub open spec fn renamed_name(diff: Seq<(String, FileDiffData)>, f: Seq<char>) -> Seq<char>
    decreases diff.len(),
{
    if diff.len() == 0 {
        f
    } else if diff.last().1.1 matches Some(o) && o@ == f {
        diff.last().0@
    } else {
        renamed_name(diff.drop_last(), f)
    }
}

/// The diff of a head-side name (the last entry with that name).
pub open spec fn diff_entry(diff: Seq<(String, FileDiffData)>, name: Seq<char>) -> Option<FileDiffData>
    decreases diff.len(),
{
    if diff.len() == 0 {
        None
    } else if diff.last().0@ == name {
        Some(diff.last().1)
    } else {
        diff_entry(diff.drop_last(), name)
    }
}

/// The base-side name of a head-side name: the renamed-from name, if any.
pub open spec fn original_name(diff: Seq<(String, FileDiffData)>, name: Seq<char>) -> Seq<char> {
    match diff_entry(diff, name) {
        Some(d) => match d.1 {
            Some(o) => o@,
            None => name,
        },
        None => name,
    }
}

/// `acc` followed by the entries of `s` not seen before, in order.
pub open spec fn add_unique(acc: Seq<Seq<char>>, s: Seq<Seq<char>>) -> Seq<Seq<char>>
    decreases s.len(),
{
    if s.len() == 0 {
        acc
    } else {
        let a = add_unique(acc, s.drop_last());
        if a.contains(s.last()) {
            a
        } else {
            a.push(s.last())
        }
    }
}

pub open spec fn file_names(files: Seq<(String, ReportFile)>) -> Seq<Seq<char>> {
    files.map_values(|e: (String, ReportFile)| e.0@)
}

/// Every name to analyse: base names after renames, then head names, each
/// once.
pub open spec fn universe(
    base: Seq<(String, ReportFile)>,
    head: Seq<(String, ReportFile)>,
    diff: Seq<(String, FileDiffData)>,
) -> Seq<Seq<char>> {
    add_unique(
        Seq::empty(),
        base.map_values(|e: (String, ReportFile)| renamed_name(diff, e.0@)) + file_names(head),
    )
}

pub open spec fn base_file_for(
    base: Seq<(String, ReportFile)>,
    diff: Seq<(String, FileDiffData)>,
    name: Seq<char>,
) -> Option<ReportFile> {
    find_file(base, original_name(diff, name))
}

/// The names of the universe that yield an analysis.
pub open spec fn analysed_names(
    base: Seq<(String, ReportFile)>,
    head: Seq<(String, ReportFile)>,
    diff: Seq<(String, FileDiffData)>,
) -> Seq<Seq<char>> {
    universe(base, head, diff).filter(
        |n: Seq<char>|
            !analysis_dropped(base_file_for(base, diff, n), find_file(head, n), diff_entry(diff, n)),
    )
}

/// Every file of a report is well formed and its totals fit.
pub open spec fn report_files_ok(r: Report) -> bool {
    &&& r.wf()
    &&& forall|i: int|
        0 <= i < r.report_files@.len() ==> lines_fit(
            line_values((#[trigger] r.report_files@[i]).1.lines@),
        )
}

pub open spec fn diff_ok(diff: Seq<(String, FileDiffData)>) -> bool {
    forall|j: int| 0 <= j < diff.len() ==> segments_fit((#[trigger] diff[j]).1.2@)
}

fn renamed(diff: &DiffInput, f: &String) -> (r: String)
    ensures
        r@ == renamed_name(diff@, f@),
{
    let mut i: usize = diff.len();
    proof {
        assert(diff@.take(diff@.len() as int) == diff@);
    }
    while i > 0
        invariant
            0 <= i <= diff@.len(),
            renamed_name(diff@, f@) == renamed_name(diff@.take(i as int), f@),
        decreases i,
    {
        proof {
            assert(diff@.take(i as int).drop_last() == diff@.take(i as int - 1));
            assert(diff@.take(i as int).last() == diff@[i as int - 1]);
        }
        match &diff[i - 1].1.1 {
            Some(o) => {
                if *o == *f {
                    return diff[i - 1].0.clone();
                }
            },
            None => {},
        }
        i = i - 1;
    }
    f.clone()
}

fn diff_lookup<'a>(diff: &'a DiffInput, name: &String) -> (r: Option<&'a FileDiffData>)
    ensures
        opt_diff(r) == diff_entry(diff@, name@),
{
    let mut i: usize = diff.len();
    proof {
        assert(diff@.take(diff@.len() as int) == diff@);
    }
    while i > 0
        invariant
            0 <= i <= diff@.len(),
            diff_entry(diff@, name@) == diff_entry(diff@.take(i as int), name@),
        decreases i,
    {
        proof {
            assert(diff@.take(i as int).drop_last() == diff@.take(i as int - 1));
            assert(diff@.take(i as int).last() == diff@[i as int - 1]);
        }
        if diff[i - 1].0 == *name {
            return Some(&diff[i - 1].1);
        }
        i = i - 1;
    }
    None
}

pub open spec fn views(v: Seq<String>) -> Seq<Seq<char>> {
    v.map_values(|s: String| s@)
}

proof fn lemma_views_contains(v: Seq<String>, x: Seq<char>)
    ensures
        views(v).contains(x) == names_contain(v, x),
{
    if views(v).contains(x) {
        let i = choose|i: int| 0 <= i < views(v).len() && views(v)[i] == x;
        assert(v[i]@ == x);
    }
    if names_contain(v, x) {
        let i = choose|i: int| 0 <= i < v.len() && v[i]@ == x;
        assert(views(v)[i] == x);
    }
}

fn push_unique(names: &mut Vec<String>, name: String)
    ensures
        views(final(names)@) == if views(old(names)@).contains(name@) {
            views(old(names)@)
        } else {
            views(old(names)@).push(name@)
        },
{
    proof {
        lemma_views_contains(names@, name@);
    }
    if !contains_name(names, &name) {
        names.push(name);
        proof {
            assert(views(names@) =~= views(old(names)@).push(name@));
        }
    }
}

/// Compares two reports under a diff: every file name (base names after
/// renames, and head names) yields an analysis unless dropped, and the
/// patch summary counts the added lines.
pub fn run_comparison_analysis(base_report: &Report, head_report: &Report, diff: &DiffInput) -> (r:
    ChangeAnalysis)
    requires
        report_files_ok(*base_report),
        report_files_ok(*head_report),
        diff_ok(diff@),
    ensures
        ({
            let kept = analysed_names(base_report.report_files@, head_report.report_files@, diff@);
            &&& r.files@.len() == kept.len()
            &&& forall|i: int|
                0 <= i < kept.len() ==> analysis_matches(
                    #[trigger] r.files@[i],
                    base_file_for(base_report.report_files@, diff@, kept[i]),
                    find_file(head_report.report_files@, kept[i]),
                    diff_entry(diff@, kept[i]),
                    original_name(diff@, kept[i]),
                    kept[i],
                )
        }),
        r.changes_summary.patch_totals.hits == capped(patch_counts(r.files@).hits),
        r.changes_summary.patch_totals.misses == capped(patch_counts(r.files@).misses),
        r.changes_summary.patch_totals.partials == capped(patch_counts(r.files@).partials),
{
    let ghost base = base_report.report_files@;
    let ghost head = head_report.report_files@;
    let ghost all = base.map_values(|e: (String, ReportFile)| renamed_name(diff@, e.0@))
        + file_names(head);
    let mut names: Vec<String> = Vec::new();
    let mut i: usize = 0;
    while i < base_report.report_files.len()
        invariant
            base == base_report.report_files@,
            all == base.map_values(|e: (String, ReportFile)| renamed_name(diff@, e.0@))
                + file_names(head),
            0 <= i <= base.len(),
            views(names@) == add_unique(Seq::empty(), all.take(i as int)),
        decreases base.len() - i,
    {
        let t = renamed(diff, &base_report.report_files[i].0);
        proof {
            assert(all.take(i as int + 1).drop_last() == all.take(i as int));
            assert(all.take(i as int + 1).last() == all[i as int]);
            assert(all[i as int] == t@);
        }
        push_unique(&mut names, t);
        i = i + 1;
    }
    let mut j: usize = 0;
    while j < head_report.report_files.len()
        invariant
            base == base_report.report_files@,
            head == head_report.report_files@,
            all == base.map_values(|e: (String, ReportFile)| renamed_name(diff@, e.0@))
                + file_names(head),
            0 <= j <= head.len(),
            views(names@) == add_unique(Seq::empty(), all.take((base.len() + j) as int)),
        decreases head.len() - j,
    {
        let t = head_report.report_files[j].0.clone();
        proof {
            let k = (base.len() + j) as int;
            assert(all.take(k + 1).drop_last() == all.take(k));
            assert(all.take(k + 1).last() == all[k]);
            assert(all[k] == t@);
        }
        push_unique(&mut names, t);
        j = j + 1;
    }
    proof {
        assert(all.take((base.len() + head.len()) as int) == all);
    }
    let ghost u = views(names@);
    let ghost pred = |n: Seq<char>|
        !analysis_dropped(base_file_for(base, diff@, n), find_file(head, n), diff_entry(diff@, n));
    let mut out: Vec<FileChangesAnalysis> = Vec::new();
    let mut k: usize = 0;
    while k < names.len()
        invariant
            base == base_report.report_files@,
            head == head_report.report_files@,
            report_files_ok(*base_report),
            report_files_ok(*head_report),
            diff_ok(diff@),
            u == views(names@),
            u == universe(base, head, diff@),
            pred == (|n: Seq<char>|
                !analysis_dropped(
                    base_file_for(base, diff@, n),
                    find_file(head, n),
                    diff_entry(diff@, n),
                )),
            0 <= k <= u.len(),
            out@.len() == u.take(k as int).filter(pred).len(),
            forall|m: int|
                0 <= m < out@.len() ==> analysis_matches(
                    #[trigger] out@[m],
                    base_file_for(base, diff@, u.take(k as int).filter(pred)[m]),
                    find_file(head, u.take(k as int).filter(pred)[m]),
                    diff_entry(diff@, u.take(k as int).filter(pred)[m]),
                    original_name(diff@, u.take(k as int).filter(pred)[m]),
                    u.take(k as int).filter(pred)[m],
                ),
        decreases u.len() - k,
    {
        let name = &names[k];
        let diff_data = diff_lookup(diff, name);
        let original: String = match diff_data {
            Some(x) => match &x.1 {
                None => name.clone(),
                Some(o) => o.clone(),
            },
            None => name.clone(),
        };
        let old_file = base_report.get_by_filename(original.as_str());
        let new_file = head_report.get_by_filename(name.as_str());
        let ghost n = name@;
        proof {
            assert(u[k as int] == n);
            assert(original@ == original_name(diff@, n));
            assert(opt_file(old_file) == base_file_for(base, diff@, n));
            assert(opt_file(new_file) == find_file(head, n));
            assert(u.take(k as int + 1).drop_last() == u.take(k as int));
            assert(u.take(k as int + 1).last() == n);
            reveal(Seq::filter);
            match old_file {
                Some(f) => {
                    let c = choose|c: int| 0 <= c < base.len() && base[c].0@ == original@;
                    assert(base[c].1 == *f);
                    assert(f.wf() && lines_fit(line_values(f.lines@)));
                },
                None => {},
            }
            match new_file {
                Some(f) => {
                    let c = choose|c: int| 0 <= c < head.len() && head[c].0@ == n;
                    assert(head[c].1 == *f);
                    assert(f.wf() && lines_fit(line_values(f.lines@)));
                },
                None => {},
            }
            lemma_diff_entry_ok(diff@, n);
        }
        if old_file.is_some() || new_file.is_some() {
            let res = run_filereport_analysis(
                old_file,
                new_file,
                diff_data,
                (original.as_str(), name.as_str()),
            );
            match res {
                Some(a) => {
                    out.push(a);
                },
                None => {},
            }
        }
        proof {
            let prev = u.take(k as int).filter(pred);
            let next = u.take(k as int + 1).filter(pred);
            if pred(n) {
                assert(next == prev.push(n));
                assert forall|m: int| 0 <= m < out@.len() implies analysis_matches(
                    #[trigger] out@[m],
                    base_file_for(base, diff@, next[m]),
                    find_file(head, next[m]),
                    diff_entry(diff@, next[m]),
                    original_name(diff@, next[m]),
                    next[m],
                ) by {
                    if m < prev.len() {
                        assert(next[m] == prev[m]);
                    }
                }
            } else {
                assert(next == prev);
            }
        }
        k = k + 1;
    }
    proof {
        assert(u.take(u.len() as int) == u);
    }
    let summary = produce_summary_from_changes_list(&out);
    ChangeAnalysis { files: out, changes_summary: summary }
}

proof fn lemma_diff_entry_ok(diff: Seq<(String, FileDiffData)>, name: Seq<char>)
    requires
        diff_ok(diff),
    ensures
        segments_fit(hunks_in(diff_entry(diff, name))),
    decreases diff.len(),
{
    if diff.len() > 0 {
        assert(segments_fit(diff[diff.len() - 1].1.2@));
        if diff.last().0@ != name {
            assert forall|j: int| 0 <= j < diff.drop_last().len() implies segments_fit(
                (#[trigger] diff.drop_last()[j]).1.2@,
            ) by {
                assert(diff.drop_last()[j] == diff[j]);
            }
            lemma_diff_entry_ok(diff.drop_last(), name);
        }
    }
}

} // verus!
