//! Exact nonnegative rational numbers with bounded, reduced representation.
//!
//! A probability is stored as a numerator/denominator pair of `u64`, kept
//! reduced by a greatest common divisor after every operation, with both
//! parts bounded by `MAX_PART` so that products and cross sums of two
//! in-bounds rationals always fit in `u128`.  An operation whose reduced
//! result would exceed the bound reports failure (`None`) instead of losing
//! precision.

use vstd::prelude::*;
use vstd::arithmetic::div_mod::{
    lemma_fundamental_div_mod, lemma_mod_bound, lemma_mod_multiples_basic, lemma_mod_self_0,
    lemma_small_mod,
};

verus! {

/// Largest value allowed for a numerator or denominator: `2^63 - 1`.
pub const MAX_PART: u64 = 0x7fff_ffff_ffff_ffff;

/// Mathematical (unbounded) rational, used only in specifications.
pub struct Rat {
    pub num: int,
    pub den: int,
}

/// A well-formed specification rational: nonnegative, positive denominator.
pub open spec fn rat_wf(r: Rat) -> bool {
    r.num >= 0 && r.den >= 1
}

/// Both parts fit the executable representation.
pub open spec fn rat_fits(r: Rat) -> bool {
    r.num <= MAX_PART && r.den <= MAX_PART
}

/// Equality of rational values by cross multiplication.
pub open spec fn rat_eq(a: Rat, b: Rat) -> bool {
    a.num * b.den == b.num * a.den
}

pub open spec fn one_rat() -> Rat {
    Rat { num: 1, den: 1 }
}

pub open spec fn zero_rat() -> Rat {
    Rat { num: 0, den: 1 }
}

/// Euclid's greatest common divisor.
pub open spec fn gcd(a: int, b: int) -> int
    decreases b,
{
    if b <= 0 {
        a
    } else {
        gcd(b, a % b)
    }
}

/// The pair `n / d` with the common divisor removed.
pub open spec fn reduced(n: int, d: int) -> Rat {
    Rat { num: n / gcd(n, d), den: d / gcd(n, d) }
}

/// Reduced exact product.
pub open spec fn mul_full(a: Rat, b: Rat) -> Rat {
    reduced(a.num * b.num, a.den * b.den)
}

/// Reduced exact sum.
pub open spec fn add_full(a: Rat, b: Rat) -> Rat {
    reduced(a.num * b.den + b.num * a.den, a.den * b.den)
}

/// Reduced exact quotient.
pub open spec fn div_full(a: Rat, b: Rat) -> Rat {
    reduced(a.num * b.den, a.den * b.num)
}

/// Checked product: `None` when the reduced result is out of bounds.
pub open spec fn mul_c(a: Rat, b: Rat) -> Option<Rat> {
    if rat_fits(mul_full(a, b)) {
        Some(mul_full(a, b))
    } else {
        None
    }
}

/// Checked sum: `None` when the reduced result is out of bounds.
pub open spec fn add_c(a: Rat, b: Rat) -> Option<Rat> {
    if rat_fits(add_full(a, b)) {
        Some(add_full(a, b))
    } else {
        None
    }
}

/// Checked quotient: `None` when the reduced result is out of bounds.
pub open spec fn div_c(a: Rat, b: Rat) -> Option<Rat> {
    if rat_fits(div_full(a, b)) {
        Some(div_full(a, b))
    } else {
        None
    }
}

/// What `Prob::new` yields for a given numerator and denominator.
pub open spec fn new_c(n: int, d: int) -> Option<Rat> {
    if d <= 0 {
        None
    } else if rat_fits(reduced(n, d)) {
        Some(reduced(n, d))
    } else {
        None
    }
}

/// Checked left fold of `+` over the first `upto` entries of `s`.
pub open spec fn fold_add_c(s: Seq<Rat>, upto: int) -> Option<Rat>
    decreases upto,
{
    if upto <= 0 {
        Some(zero_rat())
    } else {
        match fold_add_c(s, upto - 1) {
            None => None,
            Some(acc) => add_c(acc, s[upto - 1]),
        }
    }
}

/// A failed partial sum fails every longer sum.
pub proof fn lemma_fold_add_none(s: Seq<Rat>, j: int, j2: int)
    requires
        fold_add_c(s, j) is None,
        j <= j2,
    ensures
        fold_add_c(s, j2) is None,
    decreases j2 - j,
{
    if j2 > j {
        lemma_fold_add_none(s, j, j2 - 1);
    }
}

/// Unchecked (mathematical) left fold of `+` over the first `j` entries.
pub open spec fn fold_add_full(s: Seq<Rat>, j: int) -> Rat
    decreases j,
{
    if j <= 0 {
        zero_rat()
    } else {
        add_full(fold_add_full(s, j - 1), s[j - 1])
    }
}

/// A checked sum that succeeds equals the mathematical sum.
pub proof fn lemma_fold_add_c_full(s: Seq<Rat>, j: int, r: Rat)
    requires
        0 <= j,
        fold_add_c(s, j) == Some(r),
    ensures
        r == fold_add_full(s, j),
    decreases j,
{
    if j > 0 {
        match fold_add_c(s, j - 1) {
            None => {},
            Some(acc) => {
                lemma_fold_add_c_full(s, j - 1, acc);
            },
        }
    }
}

/// A fold of well-formed rationals is well-formed.
pub proof fn lemma_fold_add_full_wf(s: Seq<Rat>, j: int)
    requires
        0 <= j,
        forall|t: int| 0 <= t < j ==> rat_wf(#[trigger] s[t]),
    ensures
        rat_wf(fold_add_full(s, j)),
    decreases j,
{
    if j > 0 {
        lemma_fold_add_full_wf(s, j - 1);
        lemma_add_full(fold_add_full(s, j - 1), s[j - 1]);
    }
}

/// Addition respects value equality.
#[verifier::rlimit(100)]
pub proof fn lemma_add_cong(a: Rat, a2: Rat, b: Rat, b2: Rat)
    requires
        rat_wf(a),
        rat_wf(a2),
        rat_wf(b),
        rat_wf(b2),
        rat_eq(a, a2),
        rat_eq(b, b2),
    ensures
        rat_eq(add_full(a, b), add_full(a2, b2)),
        rat_wf(add_full(a, b)),
        rat_wf(add_full(a2, b2)),
{
    lemma_add_full(a, b);
    lemma_add_full(a2, b2);
    let x = Rat { num: a.num * b.den + b.num * a.den, den: a.den * b.den };
    let y = Rat { num: a2.num * b2.den + b2.num * a2.den, den: a2.den * b2.den };
    assert(rat_wf(x) && rat_wf(y)) by (nonlinear_arith)
        requires
            a.num >= 0,
            b.num >= 0,
            a2.num >= 0,
            b2.num >= 0,
            a.den >= 1,
            b.den >= 1,
            a2.den >= 1,
            b2.den >= 1,
            x == (Rat { num: a.num * b.den + b.num * a.den, den: a.den * b.den }),
            y == (Rat { num: a2.num * b2.den + b2.num * a2.den, den: a2.den * b2.den }),
    ;
    assert(a.num * b.den * (a2.den * b2.den) == a2.num * b2.den * (a.den * b.den))
        by (nonlinear_arith)
        requires
            a.num * a2.den == a2.num * a.den,
    ;
    assert(b.num * a.den * (a2.den * b2.den) == b2.num * a2.den * (a.den * b.den))
        by (nonlinear_arith)
        requires
            b.num * b2.den == b2.num * b.den,
    ;
    assert(rat_eq(x, y)) by (nonlinear_arith)
        requires
            a.num * b.den * (a2.den * b2.den) == a2.num * b2.den * (a.den * b.den),
            b.num * a.den * (a2.den * b2.den) == b2.num * a2.den * (a.den * b.den),
            x == (Rat { num: a.num * b.den + b.num * a.den, den: a.den * b.den }),
            y == (Rat { num: a2.num * b2.den + b2.num * a2.den, den: a2.den * b2.den }),
    ;
    lemma_rat_eq_trans(add_full(a, b), x, y);
    assert(rat_eq(y, add_full(a2, b2)));
    lemma_rat_eq_trans(add_full(a, b), y, add_full(a2, b2));
}

/// Multiplication respects value equality.
#[verifier::rlimit(100)]
pub proof fn lemma_mul_cong(a: Rat, a2: Rat, b: Rat, b2: Rat)
    requires
        rat_wf(a),
        rat_wf(a2),
        rat_wf(b),
        rat_wf(b2),
        rat_eq(a, a2),
        rat_eq(b, b2),
    ensures
        rat_eq(mul_full(a, b), mul_full(a2, b2)),
        rat_wf(mul_full(a, b)),
        rat_wf(mul_full(a2, b2)),
{
    lemma_mul_full(a, b);
    lemma_mul_full(a2, b2);
    let x = Rat { num: a.num * b.num, den: a.den * b.den };
    let y = Rat { num: a2.num * b2.num, den: a2.den * b2.den };
    assert(rat_wf(x) && rat_wf(y) && rat_eq(x, y)) by (nonlinear_arith)
        requires
            a.num >= 0,
            b.num >= 0,
            a2.num >= 0,
            b2.num >= 0,
            a.den >= 1,
            b.den >= 1,
            a2.den >= 1,
            b2.den >= 1,
            a.num * a2.den == a2.num * a.den,
            b.num * b2.den == b2.num * b.den,
            x == (Rat { num: a.num * b.num, den: a.den * b.den }),
            y == (Rat { num: a2.num * b2.num, den: a2.den * b2.den }),
    ;
    lemma_rat_eq_trans(mul_full(a, b), x, y);
    lemma_rat_eq_trans(mul_full(a, b), y, mul_full(a2, b2));
}

/// Multiplication distributes over addition.
#[verifier::rlimit(100)]
pub proof fn lemma_mul_add_dist(f: Rat, a: Rat, b: Rat)
    requires
        rat_wf(f),
        rat_wf(a),
        rat_wf(b),
    ensures
        rat_eq(add_full(mul_full(f, a), mul_full(f, b)), mul_full(f, add_full(a, b))),
{
    lemma_mul_full(f, a);
    lemma_mul_full(f, b);
    let ma = Rat { num: f.num * a.num, den: f.den * a.den };
    let mb = Rat { num: f.num * b.num, den: f.den * b.den };
    let ab = Rat { num: a.num * b.den + b.num * a.den, den: a.den * b.den };
    assert(rat_wf(ma) && rat_wf(mb) && rat_wf(ab)) by (nonlinear_arith)
        requires
            f.num >= 0,
            a.num >= 0,
            b.num >= 0,
            f.den >= 1,
            a.den >= 1,
            b.den >= 1,
            ma == (Rat { num: f.num * a.num, den: f.den * a.den }),
            mb == (Rat { num: f.num * b.num, den: f.den * b.den }),
            ab == (Rat { num: a.num * b.den + b.num * a.den, den: a.den * b.den }),
    ;
    lemma_add_cong(mul_full(f, a), ma, mul_full(f, b), mb);
    lemma_add_full(ma, mb);
    let x = Rat { num: ma.num * mb.den + mb.num * ma.den, den: ma.den * mb.den };
    lemma_add_full(a, b);
    let abv = add_full(a, b);
    lemma_mul_full(f, abv);
    let y = Rat { num: f.num * ab.num, den: f.den * ab.den };
    assert(rat_eq(x, y) && rat_wf(x) && rat_wf(y)) by (nonlinear_arith)
        requires
            x == (Rat {
                num: (f.num * a.num) * (f.den * b.den) + (f.num * b.num) * (f.den * a.den),
                den: (f.den * a.den) * (f.den * b.den),
            }),
            y == (Rat {
                num: f.num * (a.num * b.den + b.num * a.den),
                den: f.den * (a.den * b.den),
            }),
            f.num >= 0,
            a.num >= 0,
            b.num >= 0,
            f.den >= 1,
            a.den >= 1,
            b.den >= 1,
    ;
    let z = Rat { num: f.num * abv.num, den: f.den * abv.den };
    assert(rat_eq(y, z) && rat_wf(z)) by (nonlinear_arith)
        requires
            rat_wf(abv),
            abv.num * ab.den == ab.num * abv.den,
            ab.num >= 0,
            ab.den >= 1,
            f.num >= 0,
            f.den >= 1,
            y == (Rat { num: f.num * ab.num, den: f.den * ab.den }),
            z == (Rat { num: f.num * abv.num, den: f.den * abv.den }),
    ;
    let lhs = add_full(mul_full(f, a), mul_full(f, b));
    lemma_rat_eq_trans(lhs, add_full(ma, mb), x);
    lemma_rat_eq_trans(lhs, x, y);
    lemma_rat_eq_trans(lhs, y, z);
    lemma_rat_eq_trans(lhs, z, mul_full(f, abv));
}

/// Dividing two summands by a common divisor and adding is the same as
/// adding first and then dividing.
#[verifier::rlimit(100)]
pub proof fn lemma_div_add(a: Rat, b: Rat, s: Rat)
    requires
        rat_wf(a),
        rat_wf(b),
        rat_wf(s),
        s.num >= 1,
    ensures
        rat_eq(add_full(div_full(a, s), div_full(b, s)), div_full(add_full(a, b), s)),
{
    lemma_div_full(a, s);
    lemma_div_full(b, s);
    let da = Rat { num: a.num * s.den, den: a.den * s.num };
    let db = Rat { num: b.num * s.den, den: b.den * s.num };
    let ab = Rat { num: a.num * b.den + b.num * a.den, den: a.den * b.den };
    assert(rat_wf(da) && rat_wf(db) && rat_wf(ab)) by (nonlinear_arith)
        requires
            a.num >= 0,
            b.num >= 0,
            a.den >= 1,
            b.den >= 1,
            s.num >= 1,
            s.den >= 1,
            da == (Rat { num: a.num * s.den, den: a.den * s.num }),
            db == (Rat { num: b.num * s.den, den: b.den * s.num }),
            ab == (Rat { num: a.num * b.den + b.num * a.den, den: a.den * b.den }),
    ;
    lemma_add_cong(div_full(a, s), da, div_full(b, s), db);
    lemma_add_full(da, db);
    let x = Rat { num: da.num * db.den + db.num * da.den, den: da.den * db.den };
    lemma_add_full(a, b);
    lemma_div_full(add_full(a, b), s);
    // div_full(add_full(a, b), s) has the value of ab divided by s.
    let dab = Rat { num: add_full(a, b).num * s.den, den: add_full(a, b).den * s.num };
    assert(rat_wf(x) && rat_wf(dab)) by (nonlinear_arith)
        requires
            da.num >= 0,
            db.num >= 0,
            da.den >= 1,
            db.den >= 1,
            rat_wf(add_full(a, b)),
            s.num >= 1,
            s.den >= 1,
            x == (Rat { num: da.num * db.den + db.num * da.den, den: da.den * db.den }),
            dab == (Rat { num: add_full(a, b).num * s.den, den: add_full(a, b).den * s.num }),
    ;
    let abv = add_full(a, b);
    assert(x.num * (ab.num * s.den) == (ab.num * s.den) * x.num);
    // x is the cross form of the divided sum; relate it to ab divided by s.
    let y = Rat { num: ab.num * s.den, den: ab.den * s.num };
    assert(rat_eq(x, y) && rat_wf(y)) by (nonlinear_arith)
        requires
            x == (Rat {
                num: (a.num * s.den) * (b.den * s.num) + (b.num * s.den) * (a.den * s.num),
                den: (a.den * s.num) * (b.den * s.num),
            }),
            y == (Rat { num: (a.num * b.den + b.num * a.den) * s.den, den: (a.den * b.den) * s.num }),
            a.num >= 0,
            b.num >= 0,
            a.den >= 1,
            b.den >= 1,
            s.num >= 1,
            s.den >= 1,
    ;
    assert(rat_eq(y, dab) && rat_wf(dab)) by (nonlinear_arith)
        requires
            rat_wf(abv),
            rat_eq(abv, ab),
            ab.num >= 0,
            ab.den >= 1,
            s.num >= 1,
            s.den >= 1,
            y == (Rat { num: ab.num * s.den, den: ab.den * s.num }),
            dab == (Rat { num: abv.num * s.den, den: abv.den * s.num }),
            abv.num * ab.den == ab.num * abv.den,
    ;
    lemma_rat_eq_trans(add_full(div_full(a, s), div_full(b, s)), add_full(da, db), x);
    lemma_rat_eq_trans(add_full(div_full(a, s), div_full(b, s)), x, y);
    lemma_rat_eq_trans(add_full(div_full(a, s), div_full(b, s)), y, dab);
    lemma_rat_eq_trans(add_full(div_full(a, s), div_full(b, s)), dab, div_full(add_full(a, b), s));
}

/// A sum whose terms share a common factor equals the factor times the sum
/// of the cofactors.
pub proof fn lemma_sum_factor(u: Seq<Rat>, pr: Seq<Rat>, f: Rat, j: int)
    requires
        0 <= j <= u.len(),
        u.len() <= pr.len(),
        rat_wf(f),
        forall|v: int| 0 <= v < u.len() ==> rat_wf(#[trigger] u[v]),
        forall|v: int| 0 <= v < pr.len() ==> rat_wf(#[trigger] pr[v]),
        forall|v: int| 0 <= v < u.len() ==> rat_eq(#[trigger] u[v], mul_full(f, pr[v])),
    ensures
        rat_eq(fold_add_full(u, j), mul_full(f, fold_add_full(pr, j))),
    decreases j,
{
    lemma_fold_add_full_wf(u, j);
    lemma_fold_add_full_wf(pr, j);
    lemma_mul_full(f, fold_add_full(pr, j));
    if j == 0 {
        lemma_mul_zero(f);
        assert(mul_full(f, zero_rat()) == zero_rat());
    } else {
        lemma_sum_factor(u, pr, f, j - 1);
        lemma_fold_add_full_wf(u, j - 1);
        lemma_fold_add_full_wf(pr, j - 1);
        lemma_mul_full(f, fold_add_full(pr, j - 1));
        lemma_mul_full(f, pr[j - 1]);
        lemma_add_cong(
            fold_add_full(u, j - 1),
            mul_full(f, fold_add_full(pr, j - 1)),
            u[j - 1],
            mul_full(f, pr[j - 1]),
        );
        lemma_mul_add_dist(f, fold_add_full(pr, j - 1), pr[j - 1]);
        lemma_add_full(fold_add_full(pr, j - 1), pr[j - 1]);
        lemma_rat_eq_trans(
            fold_add_full(u, j),
            add_full(mul_full(f, fold_add_full(pr, j - 1)), mul_full(f, pr[j - 1])),
            mul_full(f, add_full(fold_add_full(pr, j - 1), pr[j - 1])),
        );
    }
}

/// The reduced form of `0 / d` is exactly zero.
pub proof fn lemma_reduced_zero(d: int)
    requires
        d >= 1,
    ensures
        reduced(0, d) == zero_rat(),
{
    assert(gcd(0, d) == gcd(d, 0));
    assert(gcd(d, 0) == d);
    assert(0int / d == 0) by (nonlinear_arith)
        requires
            d >= 1,
    ;
    assert(d / d == 1) by (nonlinear_arith)
        requires
            d >= 1,
    ;
}

/// Multiplying by exact zero gives exact zero, checked or not.
pub proof fn lemma_mul_zero(a: Rat)
    requires
        rat_wf(a),
    ensures
        mul_c(a, zero_rat()) == Some(zero_rat()),
{
    assert(a.num * 0 == 0 && a.den * 1 == a.den) by (nonlinear_arith);
    lemma_reduced_zero(a.den);
}

/// Dividing a value by an equal value gives exactly one.
pub proof fn lemma_div_self(a: Rat, s: Rat)
    requires
        rat_wf(a),
        rat_wf(s),
        s.num >= 1,
        rat_eq(a, s),
    ensures
        div_c(a, s) == Some(one_rat()),
{
    let m = a.num * s.den;
    assert(m == s.num * a.den && m >= 1) by (nonlinear_arith)
        requires
            a.num * s.den == s.num * a.den,
            s.num >= 1,
            a.den >= 1,
            s.den >= 1,
            a.num >= 0,
            m == a.num * s.den,
    ;
    assert(div_full(a, s) == reduced(m, m));
    assert(gcd(m, m) == gcd(m, 0));
    assert(m % m == 0) by (nonlinear_arith)
        requires
            m >= 1,
    ;
    assert(gcd(m, m) == m);
    assert(m / m == 1) by (nonlinear_arith)
        requires
            m >= 1,
    ;
    assert(div_full(a, s) == one_rat());
}

/// Whether `r` differs from one by more than the tolerance `1e-7`.
pub open spec fn off_one(r: Rat) -> bool {
    10000000 * (if r.num >= r.den {
        r.num - r.den
    } else {
        r.den - r.num
    }) > r.den
}

pub proof fn lemma_gcd_divides(a: int, b: int)
    requires
        a >= 0,
        b >= 0,
        a >= 1 || b >= 1,
    ensures
        1 <= gcd(a, b),
        a % gcd(a, b) == 0,
        b % gcd(a, b) == 0,
    decreases b,
{
    if b == 0 {
        assert(gcd(a, b) == a);
        lemma_mod_self_0(a);
        lemma_small_mod(0nat, a as nat);
    } else {
        lemma_mod_bound(a, b);
        lemma_gcd_divides(b, a % b);
        let g = gcd(b, a % b);
        assert(gcd(a, b) == g);
        lemma_fundamental_div_mod(a, b);
        lemma_fundamental_div_mod(b, g);
        lemma_fundamental_div_mod(a % b, g);
        let q = (a / b) * (b / g) + (a % b) / g;
        assert(a == q * g) by (nonlinear_arith)
            requires
                a == b * (a / b) + a % b,
                b == g * (b / g) + b % g,
                a % b == g * ((a % b) / g) + (a % b) % g,
                b % g == 0,
                (a % b) % g == 0,
                q == (a / b) * (b / g) + (a % b) / g,
        ;
        lemma_mod_multiples_basic(q, g);
    }
}

pub proof fn lemma_reduced_props(n: int, d: int)
    requires
        n >= 0,
        d >= 1,
    ensures
        rat_wf(reduced(n, d)),
        rat_eq(reduced(n, d), Rat { num: n, den: d }),
        reduced(n, d).num * gcd(n, d) == n,
        reduced(n, d).den * gcd(n, d) == d,
{
    lemma_gcd_divides(n, d);
    let g = gcd(n, d);
    lemma_fundamental_div_mod(n, g);
    lemma_fundamental_div_mod(d, g);
    let rn = n / g;
    let rd = d / g;
    assert(rn * g == n && rd * g == d) by (nonlinear_arith)
        requires
            n == g * rn + n % g,
            d == g * rd + d % g,
            n % g == 0,
            d % g == 0,
    ;
    assert(rn >= 0 && rd >= 1) by (nonlinear_arith)
        requires
            rn * g == n,
            rd * g == d,
            n >= 0,
            d >= 1,
            g >= 1,
    ;
    assert(rn * d == n * rd) by (nonlinear_arith)
        requires
            rn * g == n,
            rd * g == d,
    ;
}

/// The reduced product of well-formed rationals equals the plain product.
pub proof fn lemma_mul_full(a: Rat, b: Rat)
    requires
        rat_wf(a),
        rat_wf(b),
    ensures
        rat_wf(mul_full(a, b)),
        rat_eq(mul_full(a, b), Rat { num: a.num * b.num, den: a.den * b.den }),
{
    assert(a.num * b.num >= 0 && a.den * b.den >= 1) by (nonlinear_arith)
        requires
            a.num >= 0,
            b.num >= 0,
            a.den >= 1,
            b.den >= 1,
    ;
    lemma_reduced_props(a.num * b.num, a.den * b.den);
}

/// The reduced sum of well-formed rationals equals the cross sum.
pub proof fn lemma_add_full(a: Rat, b: Rat)
    requires
        rat_wf(a),
        rat_wf(b),
    ensures
        rat_wf(add_full(a, b)),
        rat_eq(add_full(a, b), Rat { num: a.num * b.den + b.num * a.den, den: a.den * b.den }),
{
    assert(a.num * b.den + b.num * a.den >= 0 && a.den * b.den >= 1) by (nonlinear_arith)
        requires
            a.num >= 0,
            b.num >= 0,
            a.den >= 1,
            b.den >= 1,
    ;
    lemma_reduced_props(a.num * b.den + b.num * a.den, a.den * b.den);
}

/// The reduced quotient of well-formed rationals equals the cross quotient.
pub proof fn lemma_div_full(a: Rat, b: Rat)
    requires
        rat_wf(a),
        rat_wf(b),
        b.num >= 1,
    ensures
        rat_wf(div_full(a, b)),
        rat_eq(div_full(a, b), Rat { num: a.num * b.den, den: a.den * b.num }),
{
    assert(a.num * b.den >= 0 && a.den * b.num >= 1) by (nonlinear_arith)
        requires
            a.num >= 0,
            b.den >= 1,
            a.den >= 1,
            b.num >= 1,
    ;
    lemma_reduced_props(a.num * b.den, a.den * b.num);
}

/// Cross-multiplication equality is transitive over positive denominators.
pub proof fn lemma_rat_eq_trans(a: Rat, b: Rat, c: Rat)
    requires
        rat_wf(a),
        rat_wf(b),
        rat_wf(c),
        rat_eq(a, b),
        rat_eq(b, c),
    ensures
        rat_eq(a, c),
{
    assert(a.num * c.den * b.den == c.num * a.den * b.den) by (nonlinear_arith)
        requires
            a.num * b.den == b.num * a.den,
            b.num * c.den == c.num * b.den,
    ;
    assert(a.num * c.den == c.num * a.den) by (nonlinear_arith)
        requires
            a.num * c.den * b.den == c.num * a.den * b.den,
            b.den >= 1,
    ;
}

/// A probability: an exact rational with reduced, bounded representation.
#[derive(Clone, Copy, PartialEq, Eq, Debug)]
pub struct Prob {
    num: u64,
    den: u64,
}

impl View for Prob {
    type V = Rat;

    closed spec fn view(&self) -> Rat {
        Rat { num: self.num as int, den: self.den as int }
    }
}

impl DeepView for Prob {
    type V = Rat;

    open spec fn deep_view(&self) -> Rat {
        self.view()
    }
}

/// The rational a checked operation produced, if any.
pub open spec fn opt_rat(r: Option<Prob>) -> Option<Rat> {
    match r {
        Some(p) => Some(p@),
        None => None,
    }
}

impl Prob {
    #[verifier::type_invariant]
    spec fn type_inv(self) -> bool {
        self.num <= MAX_PART && 1 <= self.den && self.den <= MAX_PART
    }

    /// Establishes that this probability is a well-formed, in-bounds
    /// rational (a consequence of the representation invariant).
    pub fn wf_facts(&self)
        ensures
            rat_wf(self@),
            rat_fits(self@),
    {
        proof {
            use_type_invariant(*self);
        }
    }

    /// Builds `num / den`, reduced; `None` if `den` is zero or the reduced
    /// parts exceed `MAX_PART`.
    pub fn new(num: u64, den: u64) -> (r: Option<Prob>)
        ensures
            opt_rat(r) == new_c(num as int, den as int),
    {
        if den == 0 {
            None
        } else {
            mk_reduced(num as u128, den as u128)
        }
    }

    /// The probability zero.
    pub fn zero() -> (r: Prob)
        ensures
            r@ == zero_rat(),
    {
        Prob { num: 0, den: 1 }
    }

    /// The probability one.
    pub fn one() -> (r: Prob)
        ensures
            r@ == one_rat(),
    {
        Prob { num: 1, den: 1 }
    }

    pub fn num(&self) -> (n: u64)
        ensures
            n as int == self@.num,
    {
        self.num
    }

    pub fn den(&self) -> (d: u64)
        ensures
            d as int == self@.den,
    {
        self.den
    }

    /// Whether this is the rational zero.
    pub fn is_zero(&self) -> (r: bool)
        ensures
            r == (self@.num == 0),
    {
        self.num == 0
    }

    /// Exact product, reduced; `None` on overflow of the reduced result.
    pub fn checked_mul(self, o: Prob) -> (r: Option<Prob>)
        ensures
            opt_rat(r) == mul_c(self@, o@),
    {
        proof {
            use_type_invariant(self);
            use_type_invariant(o);
            assert((self.num as int) * (o.num as int) <= (MAX_PART as int) * (MAX_PART as int)
                && (self.den as int) * (o.den as int) <= (MAX_PART as int) * (MAX_PART as int)
                && (self.den as int) * (o.den as int) >= 1) by (nonlinear_arith)
                requires
                    self.num <= MAX_PART,
                    o.num <= MAX_PART,
                    1 <= self.den <= MAX_PART,
                    1 <= o.den <= MAX_PART,
            ;
        }
        let n: u128 = (self.num as u128) * (o.num as u128);
        let d: u128 = (self.den as u128) * (o.den as u128);
        mk_reduced(n, d)
    }

    /// Exact sum, reduced; `None` on overflow of the reduced result.
    pub fn checked_add(self, o: Prob) -> (r: Option<Prob>)
        ensures
            opt_rat(r) == add_c(self@, o@),
    {
        proof {
            use_type_invariant(self);
            use_type_invariant(o);
            assert((self.num as int) * (o.den as int) + (o.num as int) * (self.den as int) <= 2
                * ((MAX_PART as int) * (MAX_PART as int)) && (self.den as int) * (o.den as int)
                <= (MAX_PART as int) * (MAX_PART as int) && (self.den as int) * (o.den as int)
                >= 1) by (nonlinear_arith)
                requires
                    self.num <= MAX_PART,
                    o.num <= MAX_PART,
                    1 <= self.den <= MAX_PART,
                    1 <= o.den <= MAX_PART,
            ;
        }
        let n: u128 = (self.num as u128) * (o.den as u128) + (o.num as u128) * (self.den as u128);
        let d: u128 = (self.den as u128) * (o.den as u128);
        mk_reduced(n, d)
    }

    /// Exact quotient by a nonzero probability, reduced; `None` on overflow
    /// of the reduced result.
    pub fn checked_div(self, o: Prob) -> (r: Option<Prob>)
        requires
            o@.num >= 1,
        ensures
            opt_rat(r) == div_c(self@, o@),
    {
        proof {
            use_type_invariant(self);
            use_type_invariant(o);
            assert((self.num as int) * (o.den as int) <= (MAX_PART as int) * (MAX_PART as int)
                && (self.den as int) * (o.num as int) <= (MAX_PART as int) * (MAX_PART as int)
                && (self.den as int) * (o.num as int) >= 1) by (nonlinear_arith)
                requires
                    self.num <= MAX_PART,
                    o.num <= MAX_PART,
                    1 <= self.den <= MAX_PART,
                    1 <= o.den <= MAX_PART,
                    o.num >= 1,
            ;
        }
        let n: u128 = (self.num as u128) * (o.den as u128);
        let d: u128 = (self.den as u128) * (o.num as u128);
        mk_reduced(n, d)
    }
}

/// Establishes well-formedness of every probability in a vector.
pub fn all_wf(v: &Vec<Prob>)
    ensures
        forall|i: int|
            0 <= i < v@.len() ==> rat_wf(#[trigger] v@[i]@) && rat_fits(v@[i]@),
{
    let mut k: usize = 0;
    while k < v.len()
        invariant
            k <= v@.len(),
            forall|i: int| 0 <= i < k ==> rat_wf(#[trigger] v@[i]@) && rat_fits(v@[i]@),
        decreases v@.len() - k,
    {
        let e = &v[k];
        proof {
            use_type_invariant(*e);
        }
        k += 1;
    }
}

/// Checked sum of a vector of probabilities, left to right.
pub fn sum_probs(v: &Vec<Prob>) -> (r: Option<Prob>)
    ensures
        opt_rat(r) == fold_add_c(v.deep_view(), v.deep_view().len() as int),
{
    let ghost dv = v.deep_view();
    let mut acc = Prob::zero();
    let mut i: usize = 0;
    while i < v.len()
        invariant
            i <= v@.len(),
            dv == v.deep_view(),
            dv.len() == v@.len(),
            Some(acc@) == fold_add_c(dv, i as int),
        decreases v@.len() - i,
    {
        assert(dv[i as int] == v@[i as int].deep_view());
        acc = match acc.checked_add(v[i]) {
            Some(a) => a,
            None => {
                proof {
                    lemma_fold_add_none(dv, i + 1, dv.len() as int);
                }
                return None;
            },
        };
        i += 1;
    }
    Some(acc)
}

/// Whether this probability differs from one by more than `1e-7`.
pub fn prob_off_one(p: &Prob) -> (r: bool)
    ensures
        r == off_one(p@),
{
    proof {
        use_type_invariant(*p);
    }
    let diff: u128 = if p.num >= p.den {
        (p.num - p.den) as u128
    } else {
        (p.den - p.num) as u128
    };
    10000000u128 * diff > p.den as u128
}

fn gcd_exec(a: u128, b: u128) -> (g: u128)
    ensures
        g as int == gcd(a as int, b as int),
{
    let mut x = a;
    let mut y = b;
    while y != 0
        invariant
            gcd(x as int, y as int) == gcd(a as int, b as int),
        decreases y,
    {
        let r = x % y;
        x = y;
        y = r;
    }
    x
}

/// Builds the reduced form of `n / d` if it fits the bounds.
fn mk_reduced(n: u128, d: u128) -> (r: Option<Prob>)
    requires
        d >= 1,
    ensures
        r is Some <==> rat_fits(reduced(n as int, d as int)),
        opt_rat(r) == if rat_fits(reduced(n as int, d as int)) {
            Some(reduced(n as int, d as int))
        } else {
            None::<Rat>
        },
{
    proof {
        lemma_gcd_divides(n as int, d as int);
        lemma_reduced_props(n as int, d as int);
    }
    let g = gcd_exec(n, d);
    let n2 = n / g;
    let d2 = d / g;
    if n2 <= (MAX_PART as u128) && d2 <= (MAX_PART as u128) {
        Some(Prob { num: n2 as u64, den: d2 as u64 })
    } else {
        None
    }
}

} // verus!
