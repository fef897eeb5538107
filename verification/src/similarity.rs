//! Fixed-point cosine similarity.
//!
//! Embedding coordinates are scaled integers: a coordinate `c` stands for the
//! real number `c / SCALE`. Scores are scaled the same way, so a score of
//! `SCALE` means a cosine of one. Working over integers keeps every step of
//! `dot / (|a| * |b|)` exactly specified: the denominator is the ceiling
//! square root of the product of the two squared norms, taken as one root so
//! that for a vector against itself it is the exact perfect square and the
//! score is the full scale; it never understates the norms, so the quotient
//! stays within `[-SCALE, SCALE]`.
use vstd::arithmetic::div_mod::{
    lemma_div_is_ordered, lemma_div_multiples_vanish, lemma_div_pos_is_pos,
};
use vstd::prelude::*;

verus! {

/// One unit of similarity (and of vector coordinates), in scaled integers.
pub const SCALE: i64 = 1_000_000;

/// Largest magnitude a single coordinate may have.
pub const MAX_COORD: i64 = 10_000_000;

/// Largest dimension a vector may have.
pub const MAX_DIM: usize = 10_000;

/// Largest squared norm a well-formed vector can reach: MAX_DIM * MAX_COORD^2.
pub const MAX_NORM_SQ: i128 = 1_000_000_000_000_000_000;

/// Largest magnitude of one coordinate product: MAX_COORD^2.
pub const MAX_PROD: i128 = 100_000_000_000_000;

/// Largest product of two well-formed squared norms: MAX_NORM_SQ^2.
pub const MAX_NORM_SQ_PROD: i128 = 1_000_000_000_000_000_000_000_000_000_000_000_000;

/// A vector's coordinates as unbounded integers.
pub open spec fn to_ints(s: Seq<i64>) -> Seq<int> {
    s.map_values(|x: i64| x as int)
}

/// Dot product of two equally long integer sequences.
pub open spec fn dot(a: Seq<int>, b: Seq<int>) -> int
    recommends
        a.len() == b.len(),
    decreases a.len(),
{
    if a.len() == 0 || b.len() == 0 {
        0
    } else {
        dot(a.drop_last(), b.drop_last()) + a.last() * b.last()
    }
}

/// Squared Euclidean norm.
pub open spec fn norm_sq(a: Seq<int>) -> int {
    dot(a, a)
}

/// `r` is the ceiling square root of `n`: the least non-negative integer
/// whose square reaches `n`.
pub open spec fn is_sqrt_ceil(n: int, r: int) -> bool {
    &&& 0 <= r
    &&& n <= r * r
    &&& r == 0 || (r - 1) * (r - 1) < n
}

/// The ceiling square root of `n`.
pub open spec fn sqrt_ceil(n: int) -> int {
    choose|r: int| is_sqrt_ceil(n, r)
}

pub proof fn lemma_sqrt_ceil_unique(n: int, r1: int, r2: int)
    requires
        is_sqrt_ceil(n, r1),
        is_sqrt_ceil(n, r2),
    ensures
        r1 == r2,
{
    if r1 < r2 {
        assert(r1 * r1 <= (r2 - 1) * (r2 - 1)) by (nonlinear_arith)
            requires
                0 <= r1,
                r1 <= r2 - 1,
        ;
    }
    if r2 < r1 {
        assert(r2 * r2 <= (r1 - 1) * (r1 - 1)) by (nonlinear_arith)
            requires
                0 <= r2,
                r2 <= r1 - 1,
        ;
    }
}

/// Whoever exhibits a witness knows the value of `sqrt_ceil`.
pub proof fn lemma_sqrt_ceil_is(n: int, r: int)
    requires
        is_sqrt_ceil(n, r),
    ensures
        sqrt_ceil(n) == r,
{
    assert(exists|x: int| is_sqrt_ceil(n, x));
    lemma_sqrt_ceil_unique(n, sqrt_ceil(n), r);
}

/// Every non-negative integer has a ceiling square root.
pub proof fn lemma_sqrt_ceil_exists(n: int)
    requires
        n >= 0,
    ensures
        is_sqrt_ceil(n, sqrt_ceil(n)),
    decreases n,
{
    if n == 0 {
        assert(is_sqrt_ceil(0, 0));
    } else {
        lemma_sqrt_ceil_exists(n - 1);
        let r1 = sqrt_ceil(n - 1);
        if r1 * r1 >= n {
            assert(r1 * r1 >= 1);
            assert(r1 != 0) by (nonlinear_arith)
                requires
                    0 <= r1,
                    r1 * r1 >= 1,
            ;
            assert(is_sqrt_ceil(n, r1));
        } else {
            assert((r1 + 1 - 1) * (r1 + 1 - 1) < n);
            assert(n <= (r1 + 1) * (r1 + 1)) by (nonlinear_arith)
                requires
                    0 <= r1,
                    n - 1 <= r1 * r1,
            ;
            assert(is_sqrt_ceil(n, r1 + 1));
        }
        assert(exists|x: int| is_sqrt_ceil(n, x));
        lemma_sqrt_ceil_unique(n, sqrt_ceil(n), choose|x: int| is_sqrt_ceil(n, x));
    }
}

/// A squared norm is never negative.
pub proof fn lemma_norm_sq_nonneg(a: Seq<int>)
    ensures
        norm_sq(a) >= 0,
    decreases a.len(),
{
    if a.len() > 0 {
        lemma_norm_sq_nonneg(a.drop_last());
        let x = a.last();
        assert(x * x >= 0) by (nonlinear_arith);
    }
}

/// Cauchy-Schwarz: the squared dot product never exceeds the product of the
/// squared norms.
pub proof fn lemma_cauchy_schwarz(a: Seq<int>, b: Seq<int>)
    requires
        a.len() == b.len(),
    ensures
        dot(a, b) * dot(a, b) <= norm_sq(a) * norm_sq(b),
    decreases a.len(),
{
    if a.len() == 0 {
    } else {
        let a1 = a.drop_last();
        let b1 = b.drop_last();
        lemma_cauchy_schwarz(a1, b1);
        lemma_norm_sq_nonneg(a1);
        lemma_norm_sq_nonneg(b1);
        let c = dot(a1, b1);
        let aa = norm_sq(a1);
        let bb = norm_sq(b1);
        let x = a.last();
        let y = b.last();
        assert(dot(a, b) == c + x * y);
        assert(norm_sq(a) == aa + x * x);
        assert(norm_sq(b) == bb + y * y);
        if aa == 0 {
            assert(c == 0) by (nonlinear_arith)
                requires
                    c * c <= aa * bb,
                    aa == 0,
            ;
            assert((c + x * y) * (c + x * y) <= (aa + x * x) * (bb + y * y)) by (nonlinear_arith)
                requires
                    c == 0,
                    aa == 0,
                    bb >= 0,
            ;
        } else {
            assert((aa * y - c * x) * (aa * y - c * x) >= 0) by (nonlinear_arith);
            assert(c * c * (x * x) <= (aa * bb) * (x * x)) by (nonlinear_arith)
                requires
                    c * c <= aa * bb,
            ;
            assert(aa * (aa * (y * y) - 2 * (c * (x * y)) + bb * (x * x)) >= 0) by (nonlinear_arith)
                requires
                    (aa * y - c * x) * (aa * y - c * x) >= 0,
                    c * c * (x * x) <= (aa * bb) * (x * x),
            ;
            assert(aa * (y * y) - 2 * (c * (x * y)) + bb * (x * x) >= 0) by (nonlinear_arith)
                requires
                    aa > 0,
                    aa * (aa * (y * y) - 2 * (c * (x * y)) + bb * (x * x)) >= 0,
            ;
            assert((c + x * y) * (c + x * y) == c * c + 2 * (c * (x * y)) + (x * x) * (y * y))
                by (nonlinear_arith);
            assert((aa + x * x) * (bb + y * y) == aa * bb + aa * (y * y) + bb * (x * x) + (x * x)
                * (y * y)) by (nonlinear_arith);
            assert((c + x * y) * (c + x * y) <= (aa + x * x) * (bb + y * y));
        }
    }
}

/// The fixed-point cosine similarity of two coordinate sequences: the scaled
/// dot product divided by the ceiling square root of the product of the
/// squared norms, rounded toward zero; exactly zero whenever either norm is
/// zero. Taking one root of the product makes the denominator for a vector
/// against itself the exact perfect square, so self-similarity is the full
/// scale.
pub open spec fn cos_fxp(a: Seq<int>, b: Seq<int>) -> int {
    let d = dot(a, b);
    let den = sqrt_ceil(norm_sq(a) * norm_sq(b));
    if den == 0 {
        0
    } else if d >= 0 {
        (d * SCALE) / den
    } else {
        -(((-d) * SCALE) / den)
    }
}

/// Law: the similarity of any two equally long coordinate sequences lies
/// within one scaled unit in either direction.
pub proof fn lemma_cosine_in_range(a: Seq<int>, b: Seq<int>)
    requires
        a.len() == b.len(),
    ensures
        -(SCALE as int) <= cos_fxp(a, b) <= SCALE as int,
{
    lemma_norm_sq_nonneg(a);
    lemma_norm_sq_nonneg(b);
    assert(norm_sq(a) * norm_sq(b) >= 0) by (nonlinear_arith)
        requires
            norm_sq(a) >= 0,
            norm_sq(b) >= 0,
    ;
    lemma_sqrt_ceil_exists(norm_sq(a) * norm_sq(b));
    let d = dot(a, b);
    let den = sqrt_ceil(norm_sq(a) * norm_sq(b));
    if den == 0 {
    } else {
        lemma_cauchy_schwarz(a, b);
        assert(-den <= d <= den) by (nonlinear_arith)
            requires
                d * d <= norm_sq(a) * norm_sq(b),
                norm_sq(a) * norm_sq(b) <= den * den,
                0 < den,
        ;
        let dd = if d >= 0 {
            d
        } else {
            -d
        };
        assert(dd * SCALE <= den * SCALE) by (nonlinear_arith)
            requires
                dd <= den,
                SCALE > 0,
        ;
        assert(dd * SCALE >= 0) by (nonlinear_arith)
            requires
                dd >= 0,
                SCALE > 0,
        ;
        lemma_div_is_ordered(dd * SCALE, den * SCALE, den);
        lemma_div_multiples_vanish(SCALE as int, den);
        lemma_div_pos_is_pos(dd * SCALE, den);
    }
}

/// Law: any vector of non-zero norm scores exactly the full scale against
/// itself — the denominator of `a` against `a` is the perfect square
/// `norm_sq(a)^2`, whose ceiling root is `norm_sq(a)` itself.
pub proof fn lemma_cosine_self(a: Seq<int>)
    requires
        norm_sq(a) > 0,
    ensures
        cos_fxp(a, a) == SCALE,
{
    let aa = norm_sq(a);
    assert((aa - 1) * (aa - 1) < aa * aa) by (nonlinear_arith)
        requires
            aa >= 1,
    ;
    assert(is_sqrt_ceil(aa * aa, aa));
    lemma_sqrt_ceil_is(aa * aa, aa);
    lemma_div_multiples_vanish(SCALE as int, aa);
}

/// Law: a zero-norm vector scores exactly zero against any vector, in either
/// argument position — no fault, no undefined value.
pub proof fn lemma_cosine_zero_vector(a: Seq<int>, b: Seq<int>)
    requires
        norm_sq(a) == 0,
    ensures
        cos_fxp(a, b) == 0,
        cos_fxp(b, a) == 0,
{
    lemma_norm_sq_nonneg(b);
    assert(norm_sq(a) * norm_sq(b) == 0) by (nonlinear_arith)
        requires
            norm_sq(a) == 0,
    ;
    assert(norm_sq(b) * norm_sq(a) == 0) by (nonlinear_arith)
        requires
            norm_sq(a) == 0,
    ;
    assert(is_sqrt_ceil(0, 0));
    lemma_sqrt_ceil_is(0, 0);
}

/// An embedding vector in scaled integer coordinates. `finite` records
/// whether every coordinate of the source embedding was a finite number;
/// a vector that held a NaN or an infinity is carried with `finite == false`
/// (its coordinates are then placeholders) and is excluded from ranking.
pub struct Vector {
    pub coords: Vec<i64>,
    pub finite: bool,
}

impl Vector {
    /// The coordinates as unbounded integers.
    pub open spec fn ints(self) -> Seq<int> {
        to_ints(self.coords@)
    }

    /// The dimension of the vector.
    pub open spec fn dim(self) -> nat {
        self.coords@.len()
    }

    /// Coordinates bounded so that similarity arithmetic cannot overflow.
    pub open spec fn wf(self) -> bool {
        &&& self.coords@.len() <= MAX_DIM
        &&& forall|i: int|
            0 <= i < self.coords@.len() ==> -MAX_COORD <= #[trigger] self.coords@[i] <= MAX_COORD
    }

    pub fn len(&self) -> (n: usize)
        ensures
            n == self.dim(),
    {
        self.coords.len()
    }
}

/// Dot product of two equally long, coordinate-bounded vectors, exact in
/// 128-bit arithmetic.
fn dot_i128(a: &Vec<i64>, b: &Vec<i64>) -> (d: i128)
    requires
        a@.len() == b@.len(),
        a@.len() <= MAX_DIM,
        forall|i: int| 0 <= i < a@.len() ==> -MAX_COORD <= #[trigger] a@[i] <= MAX_COORD,
        forall|i: int| 0 <= i < b@.len() ==> -MAX_COORD <= #[trigger] b@[i] <= MAX_COORD,
    ensures
        d as int == dot(to_ints(a@), to_ints(b@)),
        -MAX_NORM_SQ <= d <= MAX_NORM_SQ,
{
    let n = a.len();
    let mut acc: i128 = 0;
    let mut i: usize = 0;
    while i < n
        invariant
            0 <= i <= n,
            n == a@.len() == b@.len(),
            n <= MAX_DIM,
            forall|j: int| 0 <= j < a@.len() ==> -MAX_COORD <= #[trigger] a@[j] <= MAX_COORD,
            forall|j: int| 0 <= j < b@.len() ==> -MAX_COORD <= #[trigger] b@[j] <= MAX_COORD,
            acc as int == dot(to_ints(a@).take(i as int), to_ints(b@).take(i as int)),
            -(i as i128) * MAX_PROD <= acc <= (i as i128) * MAX_PROD,
        decreases n - i,
    {
        let x: i128 = a[i] as i128;
        let y: i128 = b[i] as i128;
        proof {
            assert(-MAX_PROD <= x * y <= MAX_PROD) by (nonlinear_arith)
                requires
                    -(MAX_COORD as i128) <= x <= MAX_COORD as i128,
                    -(MAX_COORD as i128) <= y <= MAX_COORD as i128,
                    MAX_PROD == (MAX_COORD as i128) * (MAX_COORD as i128),
            ;
            assert((i as i128) * MAX_PROD + MAX_PROD == ((i + 1) as i128) * MAX_PROD)
                by (nonlinear_arith);
            assert(((i + 1) as i128) * MAX_PROD <= (MAX_DIM as i128) * MAX_PROD)
                by (nonlinear_arith)
                requires
                    i + 1 <= MAX_DIM as i128,
                    MAX_PROD > 0,
            ;
            assert((MAX_DIM as i128) * MAX_PROD == MAX_NORM_SQ) by (nonlinear_arith);
            let ai = to_ints(a@);
            let bi = to_ints(b@);
            assert(ai.take(i + 1).drop_last() =~= ai.take(i as int));
            assert(bi.take(i + 1).drop_last() =~= bi.take(i as int));
            assert(ai.take(i + 1).last() == a@[i as int] as int);
            assert(bi.take(i + 1).last() == b@[i as int] as int);
        }
        acc = acc + x * y;
        i = i + 1;
    }
    proof {
        assert(to_ints(a@).take(n as int) =~= to_ints(a@));
        assert(to_ints(b@).take(n as int) =~= to_ints(b@));
        assert((n as i128) * MAX_PROD <= MAX_NORM_SQ) by (nonlinear_arith)
            requires
                0 <= n as i128 <= MAX_DIM as i128,
                MAX_PROD > 0,
                (MAX_DIM as i128) * MAX_PROD == MAX_NORM_SQ,
        ;
        assert((MAX_DIM as i128) * MAX_PROD == MAX_NORM_SQ) by (nonlinear_arith);
    }
    acc
}

/// The ceiling square root of a bounded non-negative integer, by bisection.
fn isqrt_ceil(n: i128) -> (r: i128)
    requires
        0 <= n <= MAX_NORM_SQ_PROD,
    ensures
        is_sqrt_ceil(n as int, r as int),
        0 <= r <= MAX_NORM_SQ,
{
    let mut lo: i128 = 0;
    let mut hi: i128 = MAX_NORM_SQ;
    proof {
        assert(MAX_NORM_SQ * MAX_NORM_SQ == MAX_NORM_SQ_PROD) by (nonlinear_arith);
    }
    while lo < hi
        invariant
            0 <= lo <= hi <= MAX_NORM_SQ,
            n <= (hi as int) * (hi as int),
            lo == 0 || ((lo - 1) as int) * ((lo - 1) as int) < n,
        decreases hi - lo,
    {
        let mid = lo + (hi - lo) / 2;
        proof {
            assert(0 <= mid < hi);
            assert(mid * mid <= MAX_NORM_SQ * MAX_NORM_SQ) by (nonlinear_arith)
                requires
                    0 <= mid <= MAX_NORM_SQ,
            ;
            assert(MAX_NORM_SQ * MAX_NORM_SQ == MAX_NORM_SQ_PROD) by (nonlinear_arith);
        }
        if mid * mid >= n {
            hi = mid;
        } else {
            lo = mid + 1;
        }
    }
    lo
}

/// Cosine similarity of two equally long vectors, in scaled units:
/// `SCALE` stands for a cosine of one. Exactly zero when either vector
/// has zero norm; never a fault.
pub fn cosine_similarity(a: &Vector, b: &Vector) -> (score: i64)
    requires
        a.wf(),
        b.wf(),
        a.dim() == b.dim(),
    ensures
        score as int == cos_fxp(a.ints(), b.ints()),
        -SCALE <= score <= SCALE,
        norm_sq(a.ints()) == 0 || norm_sq(b.ints()) == 0 ==> score == 0,
{
    let d = dot_i128(&a.coords, &b.coords);
    let nsa = dot_i128(&a.coords, &a.coords);
    let nsb = dot_i128(&b.coords, &b.coords);
    proof {
        lemma_norm_sq_nonneg(a.ints());
        lemma_norm_sq_nonneg(b.ints());
        assert((nsa as int) * (nsb as int) <= MAX_NORM_SQ_PROD) by (nonlinear_arith)
            requires
                0 <= nsa as int <= MAX_NORM_SQ,
                0 <= nsb as int <= MAX_NORM_SQ,
                MAX_NORM_SQ * MAX_NORM_SQ == MAX_NORM_SQ_PROD,
        ;
        assert(MAX_NORM_SQ * MAX_NORM_SQ == MAX_NORM_SQ_PROD) by (nonlinear_arith);
        assert((nsa as int) * (nsb as int) >= 0) by (nonlinear_arith)
            requires
                0 <= nsa as int,
                0 <= nsb as int,
        ;
    }
    let prod: i128 = nsa * nsb;
    let den = isqrt_ceil(prod);
    proof {
        lemma_sqrt_ceil_is(prod as int, den as int);
    }
    if den == 0 {
        0
    } else {
        proof {
            if norm_sq(a.ints()) == 0 || norm_sq(b.ints()) == 0 {
                assert(norm_sq(a.ints()) * norm_sq(b.ints()) == 0) by (nonlinear_arith)
                    requires
                        norm_sq(a.ints()) == 0 || norm_sq(b.ints()) == 0,
                ;
                assert(((den - 1) as int) * ((den - 1) as int) >= 0) by (nonlinear_arith);
                assert(false);
            }
            lemma_cauchy_schwarz(a.ints(), b.ints());
            assert(-(den as int) <= d as int <= den as int) by (nonlinear_arith)
                requires
                    (d as int) * (d as int) <= norm_sq(a.ints()) * norm_sq(b.ints()),
                    norm_sq(a.ints()) * norm_sq(b.ints()) <= (den as int) * (den as int),
                    0 < den as int,
            ;
        }
        let dabs: i128 = if d >= 0 {
            d
        } else {
            -d
        };
        let num: u128 = (dabs as u128) * (SCALE as u128);
        let denu: u128 = den as u128;
        proof {
            assert((dabs as u128) * (SCALE as u128) == (dabs as int) * (SCALE as int))
                by (nonlinear_arith)
                requires
                    0 <= dabs as int <= MAX_NORM_SQ,
                    SCALE == 1_000_000,
            ;
            assert((dabs as int) * (SCALE as int) <= (den as int) * (SCALE as int))
                by (nonlinear_arith)
                requires
                    0 <= dabs as int <= den as int,
                    SCALE > 0,
            ;
            assert((dabs as int) * (SCALE as int) >= 0) by (nonlinear_arith)
                requires
                    0 <= dabs as int,
                    SCALE > 0,
            ;
            lemma_div_is_ordered(
                (dabs as int) * (SCALE as int),
                (den as int) * (SCALE as int),
                den as int,
            );
            lemma_div_multiples_vanish(SCALE as int, den as int);
            lemma_div_pos_is_pos((dabs as int) * (SCALE as int), den as int);
        }
        let q: u128 = num / denu;
        let qi: i64 = q as i64;
        if d >= 0 {
            qi
        } else {
            -qi
        }
    }
}

} // verus!
