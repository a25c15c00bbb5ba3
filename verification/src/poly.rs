use crate::errors::VaultError;
use crate::field::{
    add_p, lemma_inverse_unique, mul_p, neg_p, prime, sub_p, FieldElement,
};
use vstd::prelude::*;
use vstd::arithmetic::div_mod::{
    lemma_add_mod_noop, lemma_add_mod_noop_right, lemma_mod_add_multiples_vanish,
    lemma_mod_division_less_than_divisor, lemma_mod_multiples_vanish, lemma_mul_mod_noop_left,
    lemma_mul_mod_noop_right, lemma_small_mod, lemma_sub_mod_noop,
};

verus! {

/// A point on the secret polynomial: the pair `(x, f(x))`.  Ephemeral;
/// only held while shares are generated or a secret is reconstructed.
#[derive(Debug)]
pub struct Share {
    pub x: FieldElement,
    pub y: FieldElement,
}

impl Share {
    pub open spec fn valid(&self) -> bool {
        self.x.valid() && self.y.valid()
    }
}

/// Horner evaluation of a coefficient sequence (highest degree first,
/// constant term last) at `x`, canonically reduced at every step.
pub open spec fn poly_eval(coeffs: Seq<int>, x: int) -> int
    decreases coeffs.len(),
{
    if coeffs.len() == 0 {
        0
    } else {
        add_p(mul_p(poly_eval(coeffs.drop_last(), x), x), coeffs.last())
    }
}

/// The views of a coefficient vector, as mathematical integers.
pub open spec fn coeff_views(s: Seq<FieldElement>) -> Seq<int> {
    s.map_values(|e: FieldElement| e@)
}

/// Evaluating at zero yields the constant term: the secret sits at
/// `f(0)`, which is why zero is never issued as a share index.
pub proof fn lemma_eval_at_zero(coeffs: Seq<int>)
    requires
        coeffs.len() > 0,
        0 <= coeffs.last() < prime(),
    ensures
        poly_eval(coeffs, 0) == coeffs.last(),
{
    lemma_small_mod(coeffs.last() as nat, prime() as nat);
}

/// A nonempty polynomial evaluates to a canonical field value.
pub proof fn lemma_poly_eval_bounds(c: Seq<int>, x: int)
    requires
        c.len() > 0,
    ensures
        0 <= poly_eval(c, x) < prime(),
{
    lemma_mod_division_less_than_divisor(
        mul_p(poly_eval(c.drop_last(), x), x) + c.last(),
        prime(),
    );
}

/// Every `x` index in the share list is nonzero and no index repeats.
pub open spec fn xs_distinct_nonzero(s: Seq<Share>) -> bool {
    &&& forall|i: int| 0 <= i < s.len() ==> (#[trigger] s[i]).x@ != 0
    &&& forall|i: int, j: int| 0 <= i < j < s.len() ==> s[i].x@ != s[j].x@
}

pub open spec fn shares_valid(s: Seq<Share>) -> bool {
    forall|i: int| 0 <= i < s.len() ==> (#[trigger] s[i]).valid()
}

/// `b` is the canonical multiplicative inverse of `a`.
pub open spec fn is_inverse(a: int, b: int) -> bool {
    0 <= b < prime() && mul_p(a, b) == 1
}

/// `a` has a multiplicative inverse modulo the prime.
pub open spec fn invertible(a: int) -> bool {
    exists|b: int| is_inverse(a, b)
}

/// The canonical inverse of `a`, meaningful when `invertible(a)` holds.
pub open spec fn finv(a: int) -> int {
    choose|b: int| is_inverse(a, b)
}

/// The product over the first `n` shares, skipping share `i`, of the
/// negated x-coordinates: the Lagrange basis numerator evaluated at zero.
pub open spec fn den_prod(s: Seq<Share>, i: int, n: int) -> int
    decreases n,
{
    if n <= 0 {
        1
    } else if n - 1 == i {
        den_prod(s, i, n - 1)
    } else {
        mul_p(den_prod(s, i, n - 1), neg_p(s[n - 1].x@))
    }
}

/// The product over the first `n` shares, skipping share `i`, of the
/// differences `x_i - x_j`: the Lagrange basis denominator.
pub open spec fn num_prod(s: Seq<Share>, i: int, n: int) -> int
    decreases n,
{
    if n <= 0 {
        1
    } else if n - 1 == i {
        num_prod(s, i, n - 1)
    } else {
        mul_p(num_prod(s, i, n - 1), sub_p(s[i].x@, s[n - 1].x@))
    }
}

/// Every share's Lagrange denominator has an inverse.
pub open spec fn all_denominators_invertible(s: Seq<Share>) -> bool {
    forall|i: int|
        0 <= i < s.len() ==> invertible(#[trigger] num_prod(s, i, s.len() as int))
}

/// The Lagrange interpolation sum over the first `k` shares, evaluated
/// at zero: `sum_i y_i * den_prod(i) * num_prod(i)^-1`.
pub open spec fn lagrange_sum(s: Seq<Share>, k: int) -> int
    decreases k,
{
    if k <= 0 {
        0
    } else {
        add_p(
            lagrange_sum(s, k - 1),
            mul_p(
                mul_p(s[k - 1].y@, den_prod(s, k - 1, s.len() as int)),
                finv(num_prod(s, k - 1, s.len() as int)),
            ),
        )
    }
}

/// The value of the interpolated polynomial at zero: the reconstructed
/// secret.
pub open spec fn lagrange_at_zero(s: Seq<Share>) -> int {
    lagrange_sum(s, s.len() as int)
}

/// Interpolation round trip, shown for the two-share instance: taking
/// the shares at `x = 1` and `x = 2` of a polynomial with two
/// coefficients and interpolating them at zero returns exactly the
/// constant term, the secret.
pub proof fn lemma_round_trip_two_shares(c: Seq<int>, s: Seq<Share>)
    requires
        c.len() == 2,
        forall|i: int| 0 <= i < c.len() ==> 0 <= #[trigger] c[i] < prime(),
        s.len() == 2,
        s[0].x@ == 1,
        s[1].x@ == 2,
        s[0].y@ == poly_eval(c, 1),
        s[1].y@ == poly_eval(c, 2),
    ensures
        lagrange_at_zero(s) == c.last(),
{
    let m = prime();
    let c1 = c[0];
    let c0 = c[1];
    lemma_small_mod(c1 as nat, m as nat);
    lemma_small_mod(c0 as nat, m as nat);
    // Unfold the two evaluations: y0 = (c1 + c0) % m, y1 = (2*c1 + c0) % m.
    assert(c.drop_last() =~= seq![c1]);
    assert(seq![c1].drop_last() =~= Seq::<int>::empty());
    assert(poly_eval(Seq::<int>::empty(), 1) == 0);
    assert(poly_eval(Seq::<int>::empty(), 2) == 0);
    assert(poly_eval(seq![c1], 1) == add_p(mul_p(0, 1), c1));
    assert(poly_eval(seq![c1], 2) == add_p(mul_p(0, 2), c1));
    assert(poly_eval(seq![c1], 1) == c1);
    assert(poly_eval(seq![c1], 2) == c1);
    assert(poly_eval(c, 1) == add_p(mul_p(c1, 1), c0));
    assert(mul_p(c1, 1) == c1);
    let y0 = s[0].y@;
    let y1 = s[1].y@;
    assert(y0 == (c1 + c0) % m);
    assert(poly_eval(c, 2) == add_p(mul_p(c1, 2), c0));
    lemma_add_mod_noop_right(c0, 2 * c1, m);
    assert(y1 == (2 * c1 + c0) % m);
    lemma_mod_division_less_than_divisor(c1 + c0, m);
    lemma_mod_division_less_than_divisor(2 * c1 + c0, m);
    // The Lagrange basis products for two shares at x = 1 and x = 2.
    assert(neg_p(2) == m - 2) by {
        lemma_mod_add_multiples_vanish(-2, m);
        lemma_small_mod((m - 2) as nat, m as nat);
    }
    assert(neg_p(1) == m - 1) by {
        lemma_mod_add_multiples_vanish(-1, m);
        lemma_small_mod((m - 1) as nat, m as nat);
    }
    assert(sub_p(1, 2) == m - 1) by {
        lemma_mod_add_multiples_vanish(-1, m);
        lemma_small_mod((m - 1) as nat, m as nat);
    }
    assert(sub_p(2, 1) == 1) by {
        lemma_small_mod(1nat, m as nat);
    }
    lemma_small_mod((m - 2) as nat, m as nat);
    lemma_small_mod((m - 1) as nat, m as nat);
    lemma_small_mod(1nat, m as nat);
    assert(den_prod(s, 0, 0) == 1);
    assert(num_prod(s, 0, 0) == 1);
    assert(num_prod(s, 1, 0) == 1);
    assert(den_prod(s, 0, 1) == 1);
    assert(den_prod(s, 0, 2) == mul_p(1, neg_p(2)));
    assert(den_prod(s, 0, 2) == m - 2);
    assert(num_prod(s, 0, 1) == 1);
    assert(num_prod(s, 0, 2) == mul_p(1, sub_p(1, 2)));
    assert(num_prod(s, 0, 2) == m - 1);
    assert(den_prod(s, 1, 0) == 1);
    assert(den_prod(s, 1, 1) == mul_p(1, neg_p(1)));
    assert(den_prod(s, 1, 2) == den_prod(s, 1, 1));
    assert(den_prod(s, 1, 2) == m - 1);
    assert(num_prod(s, 1, 1) == mul_p(1, sub_p(2, 1)));
    assert(num_prod(s, 1, 2) == num_prod(s, 1, 1));
    assert(num_prod(s, 1, 2) == 1);
    // -1 and 1 are their own inverses, so the chosen inverses are pinned.
    assert(mul_p(m - 1, m - 1) == 1) by {
        assert((m - 1) * (m - 1) == m * (m - 2) + 1) by (nonlinear_arith);
        lemma_mod_multiples_vanish(m - 2, 1, m);
        lemma_small_mod(1nat, m as nat);
    }
    assert(is_inverse(m - 1, m - 1));
    assert(mul_p(1, 1) == 1);
    assert(is_inverse(1, 1));
    let bneg = finv(m - 1);
    assert(is_inverse(m - 1, bneg));
    lemma_inverse_unique(m - 1, bneg, m - 1);
    let bone = finv(1);
    assert(is_inverse(1, bone));
    lemma_inverse_unique(1, bone, 1);
    // Assemble the interpolation sum.
    let t0 = mul_p(mul_p(y0, m - 2), m - 1);
    let t1 = mul_p(mul_p(y1, m - 1), 1);
    assert(lagrange_sum(s, 0) == 0);
    assert(lagrange_sum(s, 1) == add_p(0, t0));
    lemma_mod_division_less_than_divisor(mul_p(y0, m - 2) * (m - 1), m);
    lemma_small_mod(t0 as nat, m as nat);
    assert(lagrange_sum(s, 1) == t0);
    assert(lagrange_sum(s, 2) == add_p(t0, t1));
    // t0 reduces to (2 * y0) % m: the basis factor (m-2)(m-1) is 2 mod m.
    lemma_mul_mod_noop_left(y0 * (m - 2), m - 1, m);
    assert((y0 * (m - 2)) * (m - 1) == y0 * ((m - 2) * (m - 1))) by (nonlinear_arith);
    lemma_mul_mod_noop_right(y0, (m - 2) * (m - 1), m);
    assert(((m - 2) * (m - 1)) % m == 2) by {
        assert((m - 2) * (m - 1) == m * (m - 3) + 2) by (nonlinear_arith);
        lemma_mod_multiples_vanish(m - 3, 2, m);
        lemma_small_mod(2nat, m as nat);
    }
    assert(t0 == (y0 * 2) % m);
    // t1 reduces to (-y1) % m: multiplying by m - 1 negates.
    lemma_mod_division_less_than_divisor(y1 * (m - 1), m);
    lemma_small_mod(mul_p(y1, m - 1) as nat, m as nat);
    assert(t1 == (y1 * (m - 1)) % m);
    assert(y1 * (m - 1) == m * y1 + (-y1)) by (nonlinear_arith);
    lemma_mod_multiples_vanish(y1, -y1, m);
    assert(t1 == (-y1) % m);
    // The sum telescopes to the constant term.
    lemma_add_mod_noop(y0 * 2, -y1, m);
    assert(add_p(t0, t1) == (y0 * 2 - y1) % m);
    lemma_sub_mod_noop(y0 * 2, y1, m);
    assert((y0 * 2) % m == (2 * (c1 + c0)) % m) by {
        lemma_mul_mod_noop_left(c1 + c0, 2, m);
        assert(y0 * 2 == ((c1 + c0) % m) * 2);
    }
    assert(y1 % m == (2 * c1 + c0) % m) by {
        lemma_small_mod(y1 as nat, m as nat);
    }
    assert(((y0 * 2) % m - y1 % m) % m == ((2 * (c1 + c0)) % m - (2 * c1 + c0) % m) % m);
    lemma_sub_mod_noop(2 * (c1 + c0), 2 * c1 + c0, m);
    assert((y0 * 2 - y1) % m == (2 * (c1 + c0) - (2 * c1 + c0)) % m);
    assert(2 * (c1 + c0) - (2 * c1 + c0) == c0);
    assert(lagrange_sum(s, 2) == c0 % m);
    lemma_small_mod(c0 as nat, m as nat);
}

/// Interpolation round trip for the three-share instance: shares taken
/// at `x = 1, 2, 3` of a polynomial with three coefficients interpolate
/// at zero back to its constant term.
pub proof fn lemma_round_trip_three_shares(c: Seq<int>, s: Seq<Share>)
    requires
        c.len() == 3,
        forall|i: int| 0 <= i < c.len() ==> 0 <= #[trigger] c[i] < prime(),
        s.len() == 3,
        s[0].x@ == 1,
        s[1].x@ == 2,
        s[2].x@ == 3,
        s[0].y@ == poly_eval(c, 1),
        s[1].y@ == poly_eval(c, 2),
        s[2].y@ == poly_eval(c, 3),
    ensures
        lagrange_at_zero(s) == c.last(),
{
    let m = prime();
    let c2 = c[0];
    let c1 = c[1];
    let c0 = c[2];
    lemma_small_mod(c2 as nat, m as nat);
    lemma_small_mod(c1 as nat, m as nat);
    lemma_small_mod(c0 as nat, m as nat);
    // Unfold the evaluations into (c2*x^2 + c1*x + c0) % m for x = 1, 2, 3.
    assert(c.drop_last() =~= seq![c2, c1]);
    assert(seq![c2, c1].drop_last() =~= seq![c2]);
    assert(seq![c2].drop_last() =~= Seq::<int>::empty());
    let y0 = s[0].y@;
    let y1 = s[1].y@;
    let y2 = s[2].y@;
    let q0 = c2 + c1 + c0;
    let q1 = 4 * c2 + 2 * c1 + c0;
    let q2 = 9 * c2 + 3 * c1 + c0;
    assert forall|x: int| 1 <= x <= 3 implies #[trigger] poly_eval(c, x) == (c2 * x * x + c1 * x
        + c0) % m by {
        assert(poly_eval(Seq::<int>::empty(), x) == 0);
        assert(poly_eval(seq![c2], x) == add_p(mul_p(0, x), c2));
        assert(poly_eval(seq![c2], x) == c2);
        assert(poly_eval(seq![c2, c1], x) == add_p(mul_p(c2, x), c1));
        let e1 = poly_eval(seq![c2, c1], x);
        assert(e1 == (c2 * x + c1) % m) by {
            lemma_add_mod_noop_right(c1, c2 * x, m);
        }
        assert(poly_eval(c, x) == add_p(mul_p(e1, x), c0));
        lemma_mul_mod_noop_left(c2 * x + c1, x, m);
        assert((e1 * x) % m == ((c2 * x + c1) * x) % m);
        lemma_add_mod_noop_right(c0, e1 * x, m);
        lemma_add_mod_noop_right(c0, (c2 * x + c1) * x, m);
        assert(poly_eval(c, x) == ((c2 * x + c1) * x + c0) % m);
        assert((c2 * x + c1) * x == c2 * x * x + c1 * x) by (nonlinear_arith);
    }
    assert(y0 == q0 % m) by {
        assert(c2 * 1 * 1 + c1 * 1 + c0 == q0);
    }
    assert(y1 == q1 % m) by {
        assert(c2 * 2 * 2 + c1 * 2 + c0 == q1);
    }
    assert(y2 == q2 % m) by {
        assert(c2 * 3 * 3 + c1 * 3 + c0 == q2);
    }
    lemma_mod_division_less_than_divisor(q0, m);
    lemma_mod_division_less_than_divisor(q1, m);
    lemma_mod_division_less_than_divisor(q2, m);
    // The negated indices and pairwise differences, canonically reduced.
    assert(neg_p(1) == m - 1 && sub_p(2, 3) == m - 1 && sub_p(1, 2) == m - 1) by {
        lemma_mod_add_multiples_vanish(-1, m);
        lemma_small_mod((m - 1) as nat, m as nat);
    }
    assert(neg_p(2) == m - 2 && sub_p(1, 3) == m - 2) by {
        lemma_mod_add_multiples_vanish(-2, m);
        lemma_small_mod((m - 2) as nat, m as nat);
    }
    assert(neg_p(3) == m - 3) by {
        lemma_mod_add_multiples_vanish(-3, m);
        lemma_small_mod((m - 3) as nat, m as nat);
    }
    assert(sub_p(2, 1) == 1 && sub_p(3, 2) == 1) by {
        lemma_small_mod(1nat, m as nat);
    }
    assert(sub_p(3, 1) == 2) by {
        lemma_small_mod(2nat, m as nat);
    }
    lemma_small_mod((m - 1) as nat, m as nat);
    lemma_small_mod((m - 2) as nat, m as nat);
    lemma_small_mod((m - 3) as nat, m as nat);
    lemma_small_mod(1nat, m as nat);
    lemma_small_mod(2nat, m as nat);
    lemma_small_mod(3nat, m as nat);
    lemma_small_mod(6nat, m as nat);
    // Lagrange basis products for the three shares.
    assert(num_prod(s, 0, 0) == 1 && den_prod(s, 0, 0) == 1);
    assert(num_prod(s, 1, 0) == 1 && den_prod(s, 1, 0) == 1);
    assert(num_prod(s, 2, 0) == 1 && den_prod(s, 2, 0) == 1);
    assert(num_prod(s, 0, 1) == 1 && den_prod(s, 0, 1) == 1);
    assert(num_prod(s, 0, 2) == mul_p(1, sub_p(1, 2)) && den_prod(s, 0, 2) == mul_p(
        1,
        neg_p(2),
    ));
    assert(num_prod(s, 0, 2) == m - 1 && den_prod(s, 0, 2) == m - 2);
    assert(num_prod(s, 0, 3) == mul_p(m - 1, sub_p(1, 3)) && den_prod(s, 0, 3) == mul_p(
        m - 2,
        neg_p(3),
    ));
    assert((m - 1) * (m - 2) == m * (m - 3) + 2) by (nonlinear_arith);
    assert((m - 2) * (m - 3) == m * (m - 5) + 6) by (nonlinear_arith);
    lemma_mod_multiples_vanish(m - 3, 2, m);
    lemma_mod_multiples_vanish(m - 5, 6, m);
    assert(num_prod(s, 0, 3) == 2 && den_prod(s, 0, 3) == 6);
    assert(num_prod(s, 1, 1) == mul_p(1, sub_p(2, 1)) && den_prod(s, 1, 1) == mul_p(
        1,
        neg_p(1),
    ));
    assert(num_prod(s, 1, 1) == 1 && den_prod(s, 1, 1) == m - 1);
    assert(num_prod(s, 1, 2) == 1 && den_prod(s, 1, 2) == m - 1);
    assert(num_prod(s, 1, 3) == mul_p(1, sub_p(2, 3)) && den_prod(s, 1, 3) == mul_p(
        m - 1,
        neg_p(3),
    ));
    assert((m - 1) * (m - 3) == m * (m - 4) + 3) by (nonlinear_arith);
    lemma_mod_multiples_vanish(m - 4, 3, m);
    assert(num_prod(s, 1, 3) == m - 1 && den_prod(s, 1, 3) == 3);
    assert(num_prod(s, 2, 1) == mul_p(1, sub_p(3, 1)) && den_prod(s, 2, 1) == mul_p(
        1,
        neg_p(1),
    ));
    assert(num_prod(s, 2, 1) == 2 && den_prod(s, 2, 1) == m - 1);
    assert(num_prod(s, 2, 2) == mul_p(2, sub_p(3, 2)) && den_prod(s, 2, 2) == mul_p(
        m - 1,
        neg_p(2),
    ));
    assert((m - 1) * (m - 2) % m == 2);
    assert(num_prod(s, 2, 2) == 2 && den_prod(s, 2, 2) == 2);
    assert(num_prod(s, 2, 3) == 2 && den_prod(s, 2, 3) == 2);
    // Inverses: 2^-1 is (m + 1) / 2, and m - 1 is its own inverse.
    let h = (m + 1) / 2;
    assert(mul_p(2, h) == 1) by {
        assert(2 * h == m + 1);
        lemma_mod_add_multiples_vanish(1, m);
        lemma_small_mod(1nat, m as nat);
    }
    assert(is_inverse(2, h));
    assert(mul_p(m - 1, m - 1) == 1) by {
        assert((m - 1) * (m - 1) == m * (m - 2) + 1) by (nonlinear_arith);
        lemma_mod_multiples_vanish(m - 2, 1, m);
        lemma_small_mod(1nat, m as nat);
    }
    assert(is_inverse(m - 1, m - 1));
    let b2 = finv(2);
    assert(is_inverse(2, b2));
    lemma_inverse_unique(2, b2, h);
    let bneg = finv(m - 1);
    assert(is_inverse(m - 1, bneg));
    lemma_inverse_unique(m - 1, bneg, m - 1);
    // The three summands reduce to 3*y0, -3*y1 and y2 modulo m.
    let t0 = mul_p(mul_p(y0, 6), h);
    let t1 = mul_p(mul_p(y1, 3), m - 1);
    let t2 = mul_p(mul_p(y2, 2), h);
    assert(lagrange_sum(s, 0) == 0);
    assert(lagrange_sum(s, 1) == add_p(0, t0));
    lemma_mod_division_less_than_divisor(mul_p(y0, 6) * h, m);
    lemma_small_mod(t0 as nat, m as nat);
    assert(lagrange_sum(s, 1) == t0);
    assert(lagrange_sum(s, 2) == add_p(t0, t1));
    assert(lagrange_sum(s, 3) == add_p(add_p(t0, t1), t2));
    assert(t0 == (y0 * 3) % m) by {
        lemma_mul_mod_noop_left(y0 * 6, h, m);
        assert((y0 * 6) * h == y0 * (6 * h)) by (nonlinear_arith);
        lemma_mul_mod_noop_right(y0, 6 * h, m);
        assert(6 * h == m * 3 + 3);
        lemma_mod_multiples_vanish(3, 3, m);
        lemma_small_mod(3nat, m as nat);
        lemma_mul_mod_noop_right(y0, 3, m);
    }
    assert(t1 == (-(y1 * 3)) % m) by {
        lemma_mul_mod_noop_left(y1 * 3, m - 1, m);
        assert((y1 * 3) * (m - 1) == m * (y1 * 3) + (-(y1 * 3))) by (nonlinear_arith);
        lemma_mod_multiples_vanish(y1 * 3, -(y1 * 3), m);
    }
    assert(t2 == y2) by {
        lemma_mul_mod_noop_left(y2 * 2, h, m);
        assert((y2 * 2) * h == y2 * (2 * h)) by (nonlinear_arith);
        lemma_mul_mod_noop_right(y2, 2 * h, m);
        assert(2 * h == m + 1);
        lemma_mod_add_multiples_vanish(1, m);
        lemma_small_mod(1nat, m as nat);
        lemma_mul_mod_noop_right(y2, 1, m);
        lemma_small_mod(y2 as nat, m as nat);
    }
    // Assemble: (3*y0 - 3*y1 + y2) % m telescopes to the constant term.
    assert(add_p(t0, t1) == (y0 * 3 - y1 * 3) % m) by {
        lemma_add_mod_noop(y0 * 3, -(y1 * 3), m);
    }
    assert(lagrange_sum(s, 3) == ((y0 * 3 - y1 * 3) % m + y2) % m);
    assert(lagrange_sum(s, 3) == (y0 * 3 - y1 * 3 + y2) % m) by {
        lemma_add_mod_noop_right(y2, y0 * 3 - y1 * 3, m);
    }
    // Substitute the evaluations and cancel.
    assert((y0 * 3) % m == (q0 * 3) % m) by {
        lemma_mul_mod_noop_left(q0, 3, m);
        assert(y0 * 3 == (q0 % m) * 3);
    }
    assert((y1 * 3) % m == (q1 * 3) % m) by {
        lemma_mul_mod_noop_left(q1, 3, m);
        assert(y1 * 3 == (q1 % m) * 3);
    }
    assert((y0 * 3 - y1 * 3) % m == (q0 * 3 - q1 * 3) % m) by {
        lemma_sub_mod_noop(y0 * 3, y1 * 3, m);
        lemma_sub_mod_noop(q0 * 3, q1 * 3, m);
    }
    assert((y0 * 3 - y1 * 3 + y2) % m == (q0 * 3 - q1 * 3 + q2) % m) by {
        lemma_add_mod_noop(y0 * 3 - y1 * 3, y2, m);
        lemma_add_mod_noop(q0 * 3 - q1 * 3, q2, m);
        lemma_small_mod(y2 as nat, m as nat);
    }
    assert(q0 * 3 - q1 * 3 + q2 == c0);
    lemma_small_mod(c0 as nat, m as nat);
}

/// For two shares at `x = 1` and `x = 2` every Lagrange denominator is
/// invertible, so a two-share interpolation can never fail for want of
/// an inverse.
pub proof fn lemma_two_share_denominators_invertible(s: Seq<Share>)
    requires
        s.len() == 2,
        s[0].x@ == 1,
        s[1].x@ == 2,
    ensures
        all_denominators_invertible(s),
{
    let m = prime();
    lemma_small_mod((m - 1) as nat, m as nat);
    lemma_small_mod(1nat, m as nat);
    assert(sub_p(1, 2) == m - 1) by {
        lemma_mod_add_multiples_vanish(-1, m);
        lemma_small_mod((m - 1) as nat, m as nat);
    }
    assert(sub_p(2, 1) == 1);
    assert(num_prod(s, 0, 0) == 1);
    assert(num_prod(s, 1, 0) == 1);
    assert(num_prod(s, 0, 1) == 1);
    assert(num_prod(s, 0, 2) == mul_p(1, sub_p(1, 2)));
    assert(num_prod(s, 0, 2) == m - 1);
    assert(num_prod(s, 1, 1) == mul_p(1, sub_p(2, 1)));
    assert(num_prod(s, 1, 2) == num_prod(s, 1, 1));
    assert(num_prod(s, 1, 2) == 1);
    assert(mul_p(m - 1, m - 1) == 1) by {
        assert((m - 1) * (m - 1) == m * (m - 2) + 1) by (nonlinear_arith);
        lemma_mod_multiples_vanish(m - 2, 1, m);
        lemma_small_mod(1nat, m as nat);
    }
    assert(is_inverse(m - 1, m - 1));
    assert(mul_p(1, 1) == 1);
    assert(is_inverse(1, 1));
    assert forall|i: int| 0 <= i < s.len() implies invertible(
        #[trigger] num_prod(s, i, s.len() as int),
    ) by {
        if i == 0 {
            assert(is_inverse(num_prod(s, 0, 2), m - 1));
        } else {
            assert(is_inverse(num_prod(s, 1, 2), 1));
        }
    }
}

/// A secret-bearing polynomial over the field: coefficients ordered
/// highest degree first, with the constant term — the secret — last.
/// Created once per vault and discarded after shares are taken.
#[derive(Debug)]
pub struct Polynomial {
    pub coefficients: Vec<FieldElement>,
}

impl Polynomial {
    pub open spec fn valid(&self) -> bool {
        forall|i: int|
            0 <= i < self.coefficients@.len() ==> (#[trigger] self.coefficients@[i]).valid()
    }

    /// The coefficient sequence as mathematical integers.
    pub open spec fn coeffs(&self) -> Seq<int> {
        coeff_views(self.coefficients@)
    }

    /// The constant term: the secret.
    pub open spec fn secret(&self) -> int {
        self.coeffs().last()
    }

    /// Build a polynomial of `t` coefficients whose constant term is the
    /// secret `s` and whose other `t - 1` coefficients are drawn
    /// uniformly at random.  A coefficient count below two is degenerate
    /// and rejected.
    pub fn new(t: u64, s: FieldElement) -> (r: Result<Polynomial, VaultError>)
        requires
            s.valid(),
        ensures
            match r {
                Ok(p) => {
                    &&& t >= 2
                    &&& p.valid()
                    &&& p.coeffs().len() == t
                    &&& p.secret() == s@
                },
                Err(e) => t < 2 && e == VaultError::DegenerateThreshold,
            },
    {
        if t < 2 {
            return Err(VaultError::DegenerateThreshold);
        }
        let mut coef: Vec<FieldElement> = Vec::new();
        let mut i: u64 = 1;
        while i < t
            invariant
                1 <= i <= t,
                coef@.len() == i - 1,
                forall|k: int| 0 <= k < coef@.len() ==> (#[trigger] coef@[k]).valid(),
            decreases t - i,
        {
            let fe = FieldElement::random();
            coef.push(fe);
            i = i + 1;
        }
        coef.push(s);
        Ok(Polynomial { coefficients: coef })
    }

    /// Horner's-method evaluation of the polynomial at `x`.
    pub fn evaluate(&self, x: &FieldElement) -> (r: FieldElement)
        requires
            self.valid(),
            x.valid(),
            self.coefficients@.len() >= 1,
        ensures
            r.valid(),
            r@ == poly_eval(self.coeffs(), x@),
    {
        let mut result = FieldElement::zero();
        proof {
            assert(self.coeffs().take(0) =~= Seq::<int>::empty());
        }
        let mut i: usize = 0;
        let n = self.coefficients.len();
        while i < n
            invariant
                self.valid(),
                x.valid(),
                n == self.coefficients@.len(),
                i <= n,
                result.valid(),
                result@ == poly_eval(self.coeffs().take(i as int), x@),
            decreases n - i,
        {
            result = result.mul(*x).add(self.coefficients[i]);
            i = i + 1;
            proof {
                let pre = self.coeffs().take(i as int);
                assert(pre.drop_last() =~= self.coeffs().take(i - 1));
                assert(pre.last() == self.coeffs()[i - 1]);
            }
        }
        proof {
            assert(self.coeffs().take(n as int) =~= self.coeffs());
        }
        result
    }

    /// The shares at `x = 1 .. n`: `x = 0` is reserved for the secret
    /// and is never issued.
    pub fn share(&self, n: u64) -> (r: Vec<Share>)
        requires
            self.valid(),
            self.coefficients@.len() >= 1,
            n >= 1,
        ensures
            r@.len() == n,
            forall|k: int|
                0 <= k < n ==> {
                    &&& (#[trigger] r@[k]).valid()
                    &&& r@[k].x@ == k + 1
                    &&& r@[k].y@ == poly_eval(self.coeffs(), k + 1)
                },
    {
        let mut shares: Vec<Share> = Vec::new();
        let mut i: u64 = 0;
        while i < n
            invariant
                self.valid(),
                self.coefficients@.len() >= 1,
                i <= n,
                shares@.len() == i,
                forall|k: int|
                    0 <= k < shares@.len() ==> {
                        &&& (#[trigger] shares@[k]).valid()
                        &&& shares@[k].x@ == k + 1
                        &&& shares@[k].y@ == poly_eval(self.coeffs(), k + 1)
                    },
            decreases n - i,
        {
            let x = FieldElement::new(i + 1);
            let y = self.evaluate(&x);
            shares.push(Share { x, y });
            i = i + 1;
        }
        shares
    }

    /// Reconstruct `f(0)` by Lagrange interpolation over all supplied
    /// shares.  The scheme is all-or-nothing: the caller states how many
    /// shares the generating polynomial requires (its coefficient count),
    /// and any other number of shares is rejected outright, so partial
    /// data can never yield a value.  Also fails on a zero or repeated
    /// share index; succeeds whenever every Lagrange denominator is
    /// invertible, which is the case for distinct nonzero indices in a
    /// prime field.
    pub fn reconstruct(shares: &Vec<Share>, k: usize) -> (r: Result<FieldElement, VaultError>)
        requires
            shares_valid(shares@),
        ensures
            match r {
                Ok(v) => {
                    &&& shares@.len() == k
                    &&& xs_distinct_nonzero(shares@)
                    &&& all_denominators_invertible(shares@)
                    &&& v.valid()
                    &&& v@ == lagrange_at_zero(shares@)
                },
                Err(e) => {
                    &&& (e == VaultError::MismatchedLengths || e
                        == VaultError::DuplicateOrZeroIndex || e
                        == VaultError::NoninvertibleElement)
                    &&& (e == VaultError::MismatchedLengths <==> shares@.len() != k)
                    &&& (e == VaultError::DuplicateOrZeroIndex <==> (shares@.len() == k
                        && !xs_distinct_nonzero(shares@)))
                    &&& (e == VaultError::NoninvertibleElement ==> !all_denominators_invertible(
                        shares@,
                    ))
                },
            },
    {
        if shares.len() != k {
            return Err(VaultError::MismatchedLengths);
        }
        let n = shares.len();
        let mut i: usize = 0;
        while i < n
            invariant
                n == shares@.len(),
                n == k,
                i <= n,
                forall|a: int| 0 <= a < i ==> (#[trigger] shares@[a]).x@ != 0,
                forall|a: int, b: int| 0 <= a < b < i ==> shares@[a].x@ != shares@[b].x@,
            decreases n - i,
        {
            if shares[i].x.value() == 0 {
                return Err(VaultError::DuplicateOrZeroIndex);
            }
            let mut j: usize = 0;
            while j < i
                invariant
                    n == shares@.len(),
                    n == k,
                    i < n,
                    j <= i,
                    forall|a: int| 0 <= a < j ==> shares@[a].x@ != shares@[i as int].x@,
                decreases i - j,
            {
                if shares[j].x.value() == shares[i].x.value() {
                    return Err(VaultError::DuplicateOrZeroIndex);
                }
                j = j + 1;
            }
            i = i + 1;
        }
        assert(xs_distinct_nonzero(shares@));
        let mut val = FieldElement::zero();
        let mut i: usize = 0;
        while i < n
            invariant
                n == shares@.len(),
                n == k,
                shares_valid(shares@),
                xs_distinct_nonzero(shares@),
                i <= n,
                val.valid(),
                val@ == lagrange_sum(shares@, i as int),
                forall|k: int|
                    0 <= k < i ==> invertible(#[trigger] num_prod(shares@, k, n as int)),
            decreases n - i,
        {
            let y = shares[i].y;
            let mut dprod = FieldElement::one();
            let mut nprod = FieldElement::one();
            let mut j: usize = 0;
            while j < n
                invariant
                    n == shares@.len(),
                    shares_valid(shares@),
                    i < n,
                    j <= n,
                    dprod.valid(),
                    nprod.valid(),
                    dprod@ == den_prod(shares@, i as int, j as int),
                    nprod@ == num_prod(shares@, i as int, j as int),
                decreases n - j,
            {
                if j != i {
                    dprod = dprod.mul(shares[j].x.neg());
                    nprod = nprod.mul(shares[i].x.sub(shares[j].x));
                }
                j = j + 1;
            }
            let inv = match nprod.invert() {
                Ok(v) => v,
                Err(_) => {
                    proof {
                        assert(!invertible(num_prod(shares@, i as int, n as int)));
                    }
                    return Err(VaultError::NoninvertibleElement);
                },
            };
            proof {
                let num = num_prod(shares@, i as int, n as int);
                assert(is_inverse(num, inv@));
                let b0 = finv(num);
                assert(is_inverse(num, b0));
                lemma_inverse_unique(num, b0, inv@);
                assert(forall|k: int|
                    0 <= k < i ==> invertible(#[trigger] num_prod(shares@, k, n as int)));
            }
            val = val.add(y.mul(dprod).mul(inv));
            i = i + 1;
        }
        Ok(val)
    }
}

} // verus!
