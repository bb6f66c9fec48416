//! The per-line coverage value and its join.

use fraction::GenericFraction;
use vstd::prelude::*;

verus! {

/// A branch ratio `numer / denom` (branches taken out of branches present).
#[derive(Debug, Clone, Copy, PartialEq, Eq, Structural)]
pub struct Fraction {
    pub numer: i32,
    pub denom: i32,
}

/// `n / d` has the least positive denominator among all equal ratios.
pub open spec fn lowest_terms(n: int, d: int) -> bool {
    &&& 0 < d
    &&& forall|n2: int, d2: int|
        0 < d2 && #[trigger] (n2 * d) == #[trigger] (n * d2) ==> d <= d2
}

/// The fraction in lowest terms equal to `n / d`.
pub open spec fn reduced_fraction(n: int, d: int) -> Fraction {
    choose|f: Fraction| f.wf() && f.numer * d == n * f.denom
}

impl Fraction {
    /// A proper fraction strictly between 0 and 1, in lowest terms.
    pub open spec fn wf(self) -> bool {
        &&& 0 < self.numer < self.denom
        &&& lowest_terms(self.numer as int, self.denom as int)
    }

    /// The fraction `numer / denom` brought to lowest terms.
    pub fn new(numer: i32, denom: i32) -> (r: Fraction)
        requires
            0 < numer < denom,
        ensures
            r.wf(),
            r.numer * denom == numer * r.denom,
            r == reduced_fraction(numer as int, denom as int),
    {
        let (n, d) = reduce(numer, denom);
        proof {
            assert(0 < n) by (nonlinear_arith)
                requires
                    n * denom == numer * d,
                    0 < numer,
                    0 < d,
                    0 < denom,
            ;
            assert(n < d) by (nonlinear_arith)
                requires
                    n * denom == numer * d,
                    numer < denom,
                    0 < d,
                    0 < denom,
            ;
        }
        let r = Fraction { numer: n, denom: d };
        proof {
            let f = reduced_fraction(numer as int, denom as int);
            assert(r.wf() && r.numer * denom == numer * r.denom);
            assert(f.wf() && f.numer * denom == numer * f.denom);
            let (fnn, fd, rn, rd) = (f.numer as int, f.denom as int, r.numer as int, r.denom as int);
            assert(fnn * rd == rn * fd) by (nonlinear_arith)
                requires
                    fnn * denom == numer * fd,
                    rn * denom == numer * rd,
                    denom > 0,
            ;
            lemma_fraction_unique(f, r);
        }
        r
    }
}

/// Relies on fraction::GenericFraction::new, which stores a positive ratio
/// through num_rational::Ratio::new, reduced by the greatest common divisor.
#[verifier::external_body]
fn reduce(numer: i32, denom: i32) -> (r: (i32, i32))
    requires
        0 < numer < denom,
    ensures
        r.0 * denom == numer * r.1,
        lowest_terms(r.0 as int, r.1 as int),
{
    let f: GenericFraction<i32> = GenericFraction::new(numer, denom);
    (*f.numer().unwrap(), *f.denom().unwrap())
}

/// Two well-formed fractions of equal value are the same fraction.
pub proof fn lemma_fraction_unique(f: Fraction, g: Fraction)
    requires
        f.wf(),
        g.wf(),
        f.numer * g.denom == g.numer * f.denom,
    ensures
        f == g,
{
    let (a, b, c, d) = (f.numer as int, f.denom as int, g.numer as int, g.denom as int);
    assert(c * b == a * d);
    assert(b <= d);
    assert(a * d == c * b);
    assert(d <= b);
    assert(a == c) by (nonlinear_arith)
        requires
            a * d == c * b,
            b == d,
            0 < b,
    ;
}

/// The coverage of one line.
#[derive(Debug, Clone, Copy, PartialEq, Eq, Structural)]
pub enum Coverage {
    Hit,
    Miss,
    Partial(Fraction),
    Ignore,
}

impl Coverage {
    pub open spec fn wf(self) -> bool {
        match self {
            Coverage::Partial(f) => f.wf(),
            _ => true,
        }
    }

    /// Numerator of the value used for ordering: Ignore is -1, Miss 0,
    /// Partial p/q, Hit 1.
    pub open spec fn value_numer(self) -> int {
        match self {
            Coverage::Hit => 1,
            Coverage::Miss => 0,
            Coverage::Partial(f) => f.numer as int,
            Coverage::Ignore => -1,
        }
    }

    /// Denominator of the value used for ordering.
    pub open spec fn value_denom(self) -> int {
        match self {
            Coverage::Partial(f) => f.denom as int,
            _ => 1,
        }
    }

    /// The one-character code of a coverage value.
    pub open spec fn spec_char(self) -> char {
        match self {
            Coverage::Hit => 'h',
            Coverage::Miss => 'm',
            Coverage::Partial(_) => 'p',
            Coverage::Ignore => 'i',
        }
    }

    /// The value used for ordering, as a ratio `(numerator, denominator)`
    /// with a positive denominator: Ignore is -1, Miss 0, Partial p/q, Hit 1.
    pub fn get_value(&self) -> (r: (i32, i32))
        ensures
            r.0 == self.value_numer(),
            r.1 == self.value_denom(),
    {
        match self {
            Coverage::Hit => (1, 1),
            Coverage::Miss => (0, 1),
            Coverage::Partial(f) => (f.numer, f.denom),
            Coverage::Ignore => (-1, 1),
        }
    }

    /// The one-character code of a coverage value: `h`, `m`, `p` or `i`.
    pub fn as_char(&self) -> (r: char)
        ensures
            r == self.spec_char(),
    {
        match self {
            Coverage::Hit => 'h',
            Coverage::Miss => 'm',
            Coverage::Partial(_) => 'p',
            Coverage::Ignore => 'i',
        }
    }

    /// Whether the value of `f` is strictly above the value of `a`
    /// (denominators are positive, so cross-multiplying keeps the order).
    pub open spec fn exceeds(f: Fraction, a: Coverage) -> bool {
        f.numer * a.value_denom() > a.value_numer() * f.denom
    }

    pub fn fraction_exceeds(f: Fraction, a: &Coverage) -> (r: bool)
        ensures
            r == Coverage::exceeds(f, *a),
    {
        let (an, ad): (i64, i64) = match a {
            Coverage::Hit => (1, 1),
            Coverage::Miss => (0, 1),
            Coverage::Partial(g) => (g.numer as i64, g.denom as i64),
            Coverage::Ignore => (-1, 1),
        };
        let fnum = f.numer as i64;
        let fden = f.denom as i64;
        proof {
            lemma_i32_product_fits(fnum as int, ad as int);
            lemma_i32_product_fits(an as int, fden as int);
        }
        fnum * ad > an * fden
    }

    /// Collapses many coverages into one: any Hit gives Hit; otherwise the
    /// highest Partial, else Miss if any, else Ignore.
    pub fn join_coverages(many_coverages: Vec<&Coverage>) -> (r: Coverage)
        ensures
            r == join(many_coverages@.map_values(|c: &Coverage| *c)),
    {
        let ghost s = many_coverages@.map_values(|c: &Coverage| *c);
        let mut a: Coverage = Coverage::Ignore;
        let mut i: usize = 0;
        while i < many_coverages.len()
            invariant
                s == many_coverages@.map_values(|c: &Coverage| *c),
                0 <= i <= s.len(),
                a == join_fold(s.take(i as int)),
                forall|k: int| 0 <= k < i ==> s[k] != Coverage::Hit,
            decreases s.len() - i,
        {
            let cov = many_coverages[i];
            proof {
                assert(s.take(i as int + 1).drop_last() == s.take(i as int));
                assert(s.take(i as int + 1).last() == s[i as int]);
            }
            match cov {
                Coverage::Hit => {
                    proof {
                        assert(s[i as int] == Coverage::Hit);
                        assert(s.contains(Coverage::Hit));
                    }
                    return Coverage::Hit;
                },
                Coverage::Miss => {
                    if let Coverage::Ignore = a {
                        a = Coverage::Miss;
                    }
                },
                Coverage::Partial(f) => {
                    if Coverage::fraction_exceeds(*f, &a) {
                        a = Coverage::Partial(*f);
                    }
                },
                Coverage::Ignore => {},
            }
            i = i + 1;
        }
        proof {
            assert(s.take(s.len() as int) == s);
        }
        a
    }
}

proof fn lemma_i32_product_fits(x: int, y: int)
    requires
        -0x8000_0000 <= x < 0x8000_0000,
        -0x8000_0000 <= y < 0x8000_0000,
    ensures
        -0x8000_0000_0000_0000 <= x * y < 0x8000_0000_0000_0000,
{
    assert(-0x8000_0000_0000_0000 <= x * y < 0x8000_0000_0000_0000) by (nonlinear_arith)
        requires
            -0x8000_0000 <= x < 0x8000_0000,
            -0x8000_0000 <= y < 0x8000_0000,
    ;
}

/// One step of the join: `a` so far, `c` the next coverage.
pub open spec fn join_step(a: Coverage, c: Coverage) -> Coverage {
    match c {
        Coverage::Hit => Coverage::Hit,
        Coverage::Miss => if a is Ignore {
            Coverage::Miss
        } else {
            a
        },
        Coverage::Partial(f) => if Coverage::exceeds(f, a) {
            c
        } else {
            a
        },
        Coverage::Ignore => a,
    }
}

/// The join steps applied from the left, starting at Ignore.
pub open spec fn join_fold(s: Seq<Coverage>) -> Coverage
    decreases s.len(),
{
    if s.len() == 0 {
        Coverage::Ignore
    } else {
        join_step(join_fold(s.drop_last()), s.last())
    }
}

/// The join of a sequence of coverages: Hit as soon as one is Hit.
pub open spec fn join(s: Seq<Coverage>) -> Coverage {
    if s.contains(Coverage::Hit) {
        Coverage::Hit
    } else {
        join_fold(s)
    }
}

proof fn lemma_join_pair(x: Coverage, y: Coverage)
    ensures
        join_fold(seq![x]) == join_step(Coverage::Ignore, x),
        join_fold(seq![x, y]) == join_step(join_step(Coverage::Ignore, x), y),
        seq![x].contains(Coverage::Hit) <==> x == Coverage::Hit,
        seq![x, y].contains(Coverage::Hit) <==> (x == Coverage::Hit || y == Coverage::Hit),
{
    assert(seq![x].drop_last() =~= Seq::<Coverage>::empty());
    assert(seq![x, y].drop_last() =~= seq![x]);
    assert(seq![x][0] == x);
    assert(seq![x, y][0] == x && seq![x, y][1] == y);
    assert(join_fold(Seq::<Coverage>::empty()) == Coverage::Ignore);
    assert(join_fold(seq![x]) == join_step(join_fold(Seq::<Coverage>::empty()), x));
    assert(join_fold(seq![x, y]) == join_step(join_fold(seq![x]), y));
}

/// The one-character code keeps exactly the variant: two coverages share a
/// code if and only if they are the same variant.
pub proof fn lemma_char_code_round_trip(c: Coverage, d: Coverage)
    ensures
        (c.spec_char() == d.spec_char()) <==> ((c is Hit && d is Hit) || (c is Miss && d is Miss) || (
        c is Partial && d is Partial) || (c is Ignore && d is Ignore)),
{
}

/// A well-formed coverage joined alone, or with itself, is unchanged.
pub proof fn lemma_join_idempotent(x: Coverage)
    requires
        x.wf(),
    ensures
        join(seq![x]) == x,
        join(seq![x, x]) == x,
{
    lemma_join_pair(x, x);
}

/// The join of two well-formed coverages does not depend on their order.
pub proof fn lemma_join_commutative(x: Coverage, y: Coverage)
    requires
        x.wf(),
        y.wf(),
    ensures
        join(seq![x, y]) == join(seq![y, x]),
{
    lemma_join_pair(x, y);
    lemma_join_pair(y, x);
    if x != Coverage::Hit && y != Coverage::Hit {
        let xy = join_step(join_step(Coverage::Ignore, x), y);
        let yx = join_step(join_step(Coverage::Ignore, y), x);
        match (x, y) {
            (Coverage::Partial(f), Coverage::Partial(g)) => {
                assert(Coverage::exceeds(f, Coverage::Ignore));
                assert(Coverage::exceeds(g, Coverage::Ignore));
                let a = f.numer as int * g.denom as int;
                let b = g.numer as int * f.denom as int;
                assert(Coverage::exceeds(g, x) == (b > a));
                assert(Coverage::exceeds(f, y) == (a > b));
                if a == b {
                    lemma_fraction_unique(f, g);
                }
                assert(xy == yx);
            },
            (Coverage::Partial(f), _) => {
                assert(Coverage::exceeds(f, Coverage::Ignore));
                assert(Coverage::exceeds(f, Coverage::Miss));
                assert(xy == yx);
            },
            (_, Coverage::Partial(g)) => {
                assert(Coverage::exceeds(g, Coverage::Ignore));
                assert(Coverage::exceeds(g, Coverage::Miss));
                assert(xy == yx);
            },
            _ => {
                assert(xy == yx);
            },
        }
    }
}

/// Ignore in front of any coverage changes nothing.
pub proof fn lemma_join_ignore_neutral(x: Coverage)
    ensures
        join(seq![Coverage::Ignore, x]) == join(seq![x]),
{
    lemma_join_pair(Coverage::Ignore, x);
    lemma_join_pair(x, x);
}

/// A sequence that starts with Hit joins to Hit, whatever follows.
pub proof fn lemma_join_hit_absorbs(rest: Seq<Coverage>)
    ensures
        join(seq![Coverage::Hit] + rest) == Coverage::Hit,
{
    assert((seq![Coverage::Hit] + rest)[0] == Coverage::Hit);
}

} // verus!
