//! Diff descriptions and the lines that exist on one side only.

use crate::file::FileTotals;
use vstd::prelude::*;

verus! {

/// Totals of the lines that a diff adds to a file, and which of them are
/// hit, missed or partial.
#[derive(Debug)]
pub struct FileDiffAnalysis {
    pub summary: FileTotals,
    pub lines_with_misses: Vec<i32>,
    pub lines_with_partials: Vec<i32>,
    pub lines_with_hits: Vec<i32>,
}

/// One hunk: `(base_start, base_len, head_start, head_len)` and one marker
/// per line: `"+"` (head only), `"-"` (base only) or context.
pub type DiffSegment = ((i32, i32, i32, i32), Vec<String>);

/// Change kind (`"new"`, `"deleted"`, anything else is a modification), the
/// name before a rename, and the hunks.
pub type FileDiffData = (String, Option<String>, Vec<DiffSegment>);

/// Per-file diff data, keyed by the file name on the head side.
pub type DiffInput = Vec<(String, FileDiffData)>;

pub open spec fn is_plus(m: String) -> bool {
    m@ == seq!['+']
}

pub open spec fn is_minus(m: String) -> bool {
    m@ == seq!['-']
}

/// How far the base cursor has moved after the first `k` markers.
pub open spec fn base_advance(markers: Seq<String>, k: int) -> int
    decreases k,
{
    if k <= 0 {
        0
    } else {
        base_advance(markers, k - 1) + if is_plus(markers[k - 1]) {
            0int
        } else {
            1int
        }
    }
}

/// How far the head cursor has moved after the first `k` markers.
pub open spec fn head_advance(markers: Seq<String>, k: int) -> int
    decreases k,
{
    if k <= 0 {
        0
    } else {
        head_advance(markers, k - 1) + if is_minus(markers[k - 1]) {
            0int
        } else {
            1int
        }
    }
}

/// The base line that the `k`-th marker of a hunk stands at.
pub open spec fn base_line_at(seg: DiffSegment, k: int) -> int {
    seg.0.0 + base_advance(seg.1@, k)
}

/// The head line that the `k`-th marker of a hunk stands at.
pub open spec fn head_line_at(seg: DiffSegment, k: int) -> int {
    seg.0.2 + head_advance(seg.1@, k)
}

/// Base lines marked `"-"` among the first `k` markers of a hunk.
pub open spec fn hunk_base_lines(seg: DiffSegment, k: int) -> Set<int>
    decreases k,
{
    if k <= 0 {
        Set::empty()
    } else if is_minus(seg.1@[k - 1]) {
        hunk_base_lines(seg, k - 1).insert(base_line_at(seg, k - 1))
    } else {
        hunk_base_lines(seg, k - 1)
    }
}

/// Head lines marked `"+"` among the first `k` markers of a hunk.
pub open spec fn hunk_head_lines(seg: DiffSegment, k: int) -> Set<int>
    decreases k,
{
    if k <= 0 {
        Set::empty()
    } else if is_plus(seg.1@[k - 1]) {
        hunk_head_lines(seg, k - 1).insert(head_line_at(seg, k - 1))
    } else {
        hunk_head_lines(seg, k - 1)
    }
}

/// Lines that exist only on the base side, over all hunks.
pub open spec fn only_on_base(segs: Seq<DiffSegment>) -> Set<int>
    decreases segs.len(),
{
    if segs.len() == 0 {
        Set::empty()
    } else {
        only_on_base(segs.drop_last()).union(
            hunk_base_lines(segs.last(), segs.last().1@.len() as int),
        )
    }
}

/// Lines that exist only on the head side, over all hunks.
pub open spec fn only_on_head(segs: Seq<DiffSegment>) -> Set<int>
    decreases segs.len(),
{
    if segs.len() == 0 {
        Set::empty()
    } else {
        only_on_head(segs.drop_last()).union(
            hunk_head_lines(segs.last(), segs.last().1@.len() as int),
        )
    }
}

/// How many of the first `k` markers are `"+"`.
pub open spec fn plus_count(markers: Seq<String>, k: int) -> int
    decreases k,
{
    if k <= 0 {
        0
    } else {
        plus_count(markers, k - 1) + if is_plus(markers[k - 1]) {
            1int
        } else {
            0
        }
    }
}

/// How many of the first `k` markers are `"-"`.
pub open spec fn minus_count(markers: Seq<String>, k: int) -> int
    decreases k,
{
    if k <= 0 {
        0
    } else {
        minus_count(markers, k - 1) + if is_minus(markers[k - 1]) {
            1int
        } else {
            0
        }
    }
}

/// The two cursors move apart only as the markers say: after `k` markers
/// the head cursor has moved once per marker that is not `"-"`, the base
/// cursor once per marker that is not `"+"`.
pub proof fn lemma_cursor_counts(markers: Seq<String>, k: int)
    requires
        0 <= k <= markers.len(),
    ensures
        head_advance(markers, k) == k - minus_count(markers, k),
        base_advance(markers, k) == k - plus_count(markers, k),
        0 <= plus_count(markers, k) + minus_count(markers, k) <= k,
    decreases k,
{
    if k > 0 {
        lemma_cursor_counts(markers, k - 1);
        if is_plus(markers[k - 1]) {
            assert(markers[k - 1]@[0] == '+');
        }
    }
}

proof fn lemma_head_advance_mono(markers: Seq<String>, a: int, b: int)
    requires
        0 <= a <= b,
    ensures
        head_advance(markers, a) <= head_advance(markers, b),
    decreases b - a,
{
    if a < b {
        lemma_head_advance_mono(markers, a, b - 1);
    }
}

/// A head line is added by a hunk exactly when a `"+"` marker stands at it,
/// and the hunk adds as many lines as it has `"+"` markers.
pub proof fn lemma_hunk_head_lines(seg: DiffSegment, n: int)
    requires
        0 <= n <= seg.1@.len(),
    ensures
        forall|l: int|
            hunk_head_lines(seg, n).contains(l) <==> exists|k: int|
                0 <= k < n && is_plus(seg.1@[k]) && #[trigger] head_line_at(seg, k) == l,
        hunk_head_lines(seg, n).finite(),
        hunk_head_lines(seg, n).len() == plus_count(seg.1@, n),
    decreases n,
{
    if n > 0 {
        lemma_hunk_head_lines(seg, n - 1);
        let prev = hunk_head_lines(seg, n - 1);
        let h = head_line_at(seg, n - 1);
        if is_plus(seg.1@[n - 1]) {
            assert(!prev.contains(h)) by {
                if prev.contains(h) {
                    let k = choose|k: int|
                        0 <= k < n - 1 && is_plus(seg.1@[k]) && #[trigger] head_line_at(seg, k) == h;
                    assert(!is_minus(seg.1@[k])) by {
                        assert(seg.1@[k]@[0] == '+');
                    }
                    lemma_head_advance_mono(seg.1@, k + 1, n - 1);
                }
            }
        }
        assert forall|l: int|
            hunk_head_lines(seg, n).contains(l) <==> exists|k: int|
                0 <= k < n && is_plus(seg.1@[k]) && #[trigger] head_line_at(seg, k) == l by {
            if hunk_head_lines(seg, n).contains(l) && !prev.contains(l) {
                assert(0 <= n - 1 < n && is_plus(seg.1@[n - 1]) && head_line_at(seg, n - 1) == l);
            }
            if exists|k: int| 0 <= k < n && is_plus(seg.1@[k]) && #[trigger] head_line_at(seg, k) == l {
                let k = choose|k: int| 0 <= k < n && is_plus(seg.1@[k]) && #[trigger] head_line_at(seg, k) == l;
                if k < n - 1 {
                    assert(prev.contains(l));
                }
            }
        }
    }
}

/// Over all hunks, a head line is one that exists only on the head side
/// exactly when some hunk has a `"+"` marker standing at it.
pub proof fn lemma_only_on_head_steps(segs: Seq<DiffSegment>, l: int)
    ensures
        only_on_head(segs).contains(l) <==> exists|j: int, k: int|
            0 <= j < segs.len() && 0 <= k < segs[j].1@.len() && is_plus(segs[j].1@[k])
                && #[trigger] head_line_at(segs[j], k) == l,
    decreases segs.len(),
{
    if segs.len() > 0 {
        let init = segs.drop_last();
        let last = segs.last();
        lemma_only_on_head_steps(init, l);
        lemma_hunk_head_lines(last, last.1@.len() as int);
        if only_on_head(segs).contains(l) {
            if only_on_head(init).contains(l) {
                let (j, k) = choose|j: int, k: int|
                    0 <= j < init.len() && 0 <= k < init[j].1@.len() && is_plus(init[j].1@[k])
                        && #[trigger] head_line_at(init[j], k) == l;
                assert(segs[j] == init[j]);
            } else {
                let k = choose|k: int|
                    0 <= k < last.1@.len() && is_plus(last.1@[k]) && #[trigger] head_line_at(last, k)
                        == l;
                assert(segs[segs.len() - 1] == last);
                assert(head_line_at(segs[segs.len() - 1], k) == l);
            }
        }
        if exists|j: int, k: int|
            0 <= j < segs.len() && 0 <= k < segs[j].1@.len() && is_plus(segs[j].1@[k])
                && #[trigger] head_line_at(segs[j], k) == l {
            let (j, k) = choose|j: int, k: int|
                0 <= j < segs.len() && 0 <= k < segs[j].1@.len() && is_plus(segs[j].1@[k])
                    && #[trigger] head_line_at(segs[j], k) == l;
            if j < segs.len() - 1 {
                assert(init[j] == segs[j]);
                assert(head_line_at(init[j], k) == l);
            } else {
                assert(head_line_at(last, k) == l);
            }
        }
    }
}

/// Every cursor of every hunk stays within `i32`.
pub open spec fn segments_fit(segs: Seq<DiffSegment>) -> bool {
    forall|j: int|
        0 <= j < segs.len() ==> {
            &&& segs[j].0.0 + segs[j].1@.len() < i32::MAX
            &&& segs[j].0.2 + segs[j].1@.len() < i32::MAX
        }
}

pub open spec fn hunks_of(diff: Option<&Vec<DiffSegment>>) -> Seq<DiffSegment> {
    match diff {
        Some(v) => v@,
        None => Seq::empty(),
    }
}

pub open spec fn strictly_sorted(v: Seq<i32>) -> bool {
    forall|i: int, j: int| 0 <= i < j < v.len() ==> v[i] < v[j]
}

/// The integers that a vector holds.
pub open spec fn int_set(v: Seq<i32>) -> Set<int> {
    Set::new(|l: int| exists|i: int| 0 <= i < v.len() && v[i] as int == l)
}

/// The strictly ascending listing of a set of lines.
pub open spec fn sorted_seq(s: Set<int>) -> Seq<i32> {
    choose|v: Seq<i32>| strictly_sorted(v) && int_set(v) == s
}

proof fn lemma_int_set_drop_first(v: Seq<i32>)
    requires
        strictly_sorted(v),
        v.len() > 0,
    ensures
        int_set(v.drop_first()) == int_set(v).remove(v[0] as int),
{
    let t = v.drop_first();
    assert forall|x: int| int_set(t).contains(x) <==> int_set(v).remove(v[0] as int).contains(x) by {
        if int_set(t).contains(x) {
            let i = choose|i: int| 0 <= i < t.len() && t[i] as int == x;
            assert(v[i + 1] as int == x);
            assert(v[0] < v[i + 1]);
        }
        if int_set(v).remove(v[0] as int).contains(x) {
            let i = choose|i: int| 0 <= i < v.len() && v[i] as int == x;
            assert(i != 0);
            assert(t[i - 1] as int == x);
        }
    }
    assert(int_set(t) =~= int_set(v).remove(v[0] as int));
}

/// Two strictly ascending vectors with the same entries are equal.
pub proof fn lemma_sorted_unique(a: Seq<i32>, b: Seq<i32>)
    requires
        strictly_sorted(a),
        strictly_sorted(b),
        int_set(a) == int_set(b),
    ensures
        a == b,
    decreases a.len(),
{
    if a.len() == 0 {
        if b.len() > 0 {
            assert(int_set(b).contains(b[0] as int));
        }
        assert(a =~= b);
    } else if b.len() == 0 {
        assert(int_set(a).contains(a[0] as int));
    } else {
        assert(int_set(a).contains(a[0] as int));
        assert(int_set(b).contains(b[0] as int));
        let i = choose|i: int| 0 <= i < b.len() && b[i] as int == a[0] as int;
        let j = choose|j: int| 0 <= j < a.len() && a[j] as int == b[0] as int;
        if i > 0 {
            assert(b[0] < b[i]);
        }
        if j > 0 {
            assert(a[0] < a[j]);
        }
        assert(a[0] == b[0]);
        lemma_int_set_drop_first(a);
        lemma_int_set_drop_first(b);
        lemma_sorted_unique(a.drop_first(), b.drop_first());
        assert(a =~= seq![a[0]] + a.drop_first());
        assert(b =~= seq![b[0]] + b.drop_first());
    }
}

/// A strictly ascending vector is the listing of its entries.
pub proof fn lemma_sorted_seq(v: Seq<i32>)
    requires
        strictly_sorted(v),
    ensures
        sorted_seq(int_set(v)) == v,
{
    let w = sorted_seq(int_set(v));
    assert(strictly_sorted(v) && int_set(v) == int_set(v));
    lemma_sorted_unique(w, v);
}

/// Adds `x` to a strictly ascending vector, keeping it so.
pub fn insert_sorted(v: &mut Vec<i32>, x: i32)
    requires
        strictly_sorted(old(v)@),
    ensures
        strictly_sorted(final(v)@),
        int_set(final(v)@) == int_set(old(v)@).insert(x as int),
{
    let ghost v0 = v@;
    let n = v.len();
    if n == 0 || v[n - 1] < x {
        v.push(x);
        proof {
            assert(v@ == v0.push(x));
            assert forall|l: int| int_set(v@).contains(l) <==> int_set(v0).insert(x as int).contains(l) by {
                if int_set(v@).contains(l) {
                    let i = choose|i: int| 0 <= i < v@.len() && v@[i] as int == l;
                    if i < n {
                        assert(v0[i] as int == l);
                    }
                }
                if int_set(v0).contains(l) {
                    let i = choose|i: int| 0 <= i < v0.len() && v0[i] as int == l;
                    assert(v@[i] as int == l);
                }
                if l == x {
                    assert(v@[n as int] as int == l);
                }
            }
            assert(int_set(v@) =~= int_set(v0).insert(x as int));
        }
        return;
    }
    let mut i: usize = 0;
    while i < n && v[i] < x
        invariant
            v@ == v0,
            n == v0.len(),
            0 < n,
            v0[n - 1] >= x,
            0 <= i <= n,
            forall|k: int| 0 <= k < i ==> v0[k] < x,
        decreases n - i,
    {
        i = i + 1;
    }
    assert(i < n);
    if v[i] == x {
        proof {
            assert(int_set(v0).contains(x as int));
            assert(int_set(v@) =~= int_set(v0).insert(x as int));
        }
        return;
    }
    v.insert(i, x);
    proof {
        assert(v@ == v0.insert(i as int, x));
        assert forall|a: int, b: int| 0 <= a < b < v@.len() implies v@[a] < v@[b] by {
            if b < i {
            } else if b == i {
            } else if a < i {
                assert(v0[a] < x && x < v0[i as int]);
                assert(v0[i as int] <= v0[b - 1]);
            } else if a == i {
                assert(x < v0[i as int]);
                assert(v0[i as int] <= v0[b - 1]);
            } else {
            }
        }
        assert forall|l: int| int_set(v@).contains(l) <==> int_set(v0).insert(x as int).contains(l) by {
            if int_set(v@).contains(l) {
                let k = choose|k: int| 0 <= k < v@.len() && v@[k] as int == l;
                if k < i {
                    assert(v0[k] as int == l);
                } else if k > i {
                    assert(v0[k - 1] as int == l);
                }
            }
            if int_set(v0).contains(l) {
                let k = choose|k: int| 0 <= k < v0.len() && v0[k] as int == l;
                if k < i {
                    assert(v@[k] as int == l);
                } else {
                    assert(v@[k + 1] as int == l);
                }
            }
            if l == x {
                assert(v@[i as int] as int == l);
            }
        }
        assert(int_set(v@) =~= int_set(v0).insert(x as int));
    }
}

fn marker_is(m: &String, lit: &String, c: char) -> (r: bool)
    requires
        lit@ == seq![c],
    ensures
        r == (m@ == seq![c]),
{
    *m == *lit
}

/// The lines that exist only on the base side and only on the head side, each
/// as a strictly ascending vector.
pub fn get_exclusions_from_diff(diff: Option<&Vec<DiffSegment>>) -> (r: (Vec<i32>, Vec<i32>))
    requires
        segments_fit(hunks_of(diff)),
    ensures
        strictly_sorted(r.0@),
        strictly_sorted(r.1@),
        int_set(r.0@) == only_on_base(hunks_of(diff)),
        int_set(r.1@) == only_on_head(hunks_of(diff)),
        r.0@ == sorted_seq(only_on_base(hunks_of(diff))),
        r.1@ == sorted_seq(only_on_head(hunks_of(diff))),
{
    let mut base: Vec<i32> = Vec::new();
    let mut head: Vec<i32> = Vec::new();
    proof {
        assert(int_set(base@) =~= Set::empty());
        assert(int_set(head@) =~= Set::empty());
    }
    match diff {
        None => {
            proof {
                lemma_sorted_seq(base@);
                lemma_sorted_seq(head@);
            }
            (base, head)
        },
        Some(segs) => {
            let plus = String::from_str("+");
            let minus = String::from_str("-");
            proof {
                reveal_strlit("+");
                reveal_strlit("-");
            }
            let mut j: usize = 0;
            while j < segs.len()
                invariant
                    plus@ == seq!['+'],
                    minus@ == seq!['-'],
                    segments_fit(segs@),
                    0 <= j <= segs.len(),
                    strictly_sorted(base@),
                    strictly_sorted(head@),
                    int_set(base@) == only_on_base(segs@.take(j as int)),
                    int_set(head@) == only_on_head(segs@.take(j as int)),
                decreases segs.len() - j,
            {
                let seg = &segs[j];
                let markers = &seg.1;
                let mut cur_base: i32 = (seg.0).0;
                let mut cur_head: i32 = (seg.0).2;
                let mut k: usize = 0;
                proof {
                    assert(segs@.take(j as int + 1).drop_last() == segs@.take(j as int));
                    assert(segs@.take(j as int + 1).last() == segs@[j as int]);
                    assert(seg.0.0 + markers@.len() < i32::MAX);
                }
                while k < markers.len()
                    invariant
                        plus@ == seq!['+'],
                        minus@ == seq!['-'],
                        j < segs@.len(),
                        *seg == segs@[j as int],
                        markers == &seg.1,
                        seg.0.0 + markers@.len() < i32::MAX,
                        seg.0.2 + markers@.len() < i32::MAX,
                        0 <= k <= markers.len(),
                        cur_base == base_line_at(*seg, k as int),
                        cur_head == head_line_at(*seg, k as int),
                        0 <= base_advance(markers@, k as int) <= k,
                        0 <= head_advance(markers@, k as int) <= k,
                        strictly_sorted(base@),
                        strictly_sorted(head@),
                        int_set(base@) == only_on_base(segs@.take(j as int)).union(
                            hunk_base_lines(*seg, k as int),
                        ),
                        int_set(head@) == only_on_head(segs@.take(j as int)).union(
                            hunk_head_lines(*seg, k as int),
                        ),
                    decreases markers.len() - k,
                {
                    let m = &markers[k];
                    let ghost hb = hunk_base_lines(*seg, k as int);
                    let ghost hh = hunk_head_lines(*seg, k as int);
                    let ghost pb = only_on_base(segs@.take(j as int));
                    let ghost ph = only_on_head(segs@.take(j as int));
                    if marker_is(m, &plus, '+') {
                        insert_sorted(&mut head, cur_head);
                        cur_head = cur_head + 1;
                        proof {
                            assert(*m == markers@[k as int]);
                            assert(m@[0] == '+');
                            assert(!is_minus(*m));
                            assert(ph.union(hh).insert(head_line_at(*seg, k as int)) =~= ph.union(
                                hh.insert(head_line_at(*seg, k as int)),
                            ));
                        }
                    } else if marker_is(m, &minus, '-') {
                        insert_sorted(&mut base, cur_base);
                        cur_base = cur_base + 1;
                        proof {
                            assert(pb.union(hb).insert(base_line_at(*seg, k as int)) =~= pb.union(
                                hb.insert(base_line_at(*seg, k as int)),
                            ));
                        }
                    } else {
                        cur_base = cur_base + 1;
                        cur_head = cur_head + 1;
                    }
                    k = k + 1;
                }
                j = j + 1;
            }
            proof {
                assert(segs@.take(segs@.len() as int) == segs@);
                lemma_sorted_seq(base@);
                lemma_sorted_seq(head@);
            }
            (base, head)
        },
    }
}

} // verus!
