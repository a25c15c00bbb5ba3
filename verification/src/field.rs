use crate::errors::VaultError;
use vstd::prelude::*;
use vstd::arithmetic::div_mod::{
    lemma_add_mod_noop, lemma_add_mod_noop_right, lemma_fundamental_div_mod,
    lemma_mod_add_multiples_vanish, lemma_mod_division_less_than_divisor,
    lemma_mod_multiples_vanish, lemma_mod_self_0, lemma_mod_sub_multiples_vanish,
    lemma_mul_mod_noop_left, lemma_mul_mod_noop_right, lemma_small_mod, lemma_sub_mod_noop,
    lemma_sub_mod_noop_right,
};

verus! {

/// The modulus of the field: the largest 128-bit prime, `2^128 - 159`.
pub const MODULUS: u128 = 340282366920938463463374607431768211297;

/// The modulus as a mathematical integer, for use in specifications.
pub open spec fn prime() -> int {
    MODULUS as int
}

/// The canonical residue of `a + b` modulo the field prime.
pub open spec fn add_p(a: int, b: int) -> int {
    (a + b) % prime()
}

/// The canonical residue of `a - b` modulo the field prime.
pub open spec fn sub_p(a: int, b: int) -> int {
    (a - b) % prime()
}

/// The canonical residue of `a * b` modulo the field prime.
pub open spec fn mul_p(a: int, b: int) -> int {
    (a * b) % prime()
}

/// The canonical residue of `-a` modulo the field prime.
pub open spec fn neg_p(a: int) -> int {
    (-a) % prime()
}

/// An element of the prime field: an integer canonically reduced into
/// `[0, MODULUS)`.  Immutable value type; every constructor and every
/// arithmetic operation returns a canonically reduced element.
#[derive(Clone, Copy, PartialEq, Eq, Structural, Debug)]
pub struct FieldElement {
    v: u128,
}

impl View for FieldElement {
    type V = int;

    closed spec fn view(&self) -> int {
        self.v as int
    }
}

impl FieldElement {
    /// The representation invariant: the value is canonically reduced.
    pub open spec fn valid(&self) -> bool {
        0 <= self@ < prime()
    }
}

/// `(a + b) % MODULUS` without leaving `u128`: when the plain sum would
/// reach the modulus, subtract the modulus instead of adding.
fn add_mod_raw(a: u128, b: u128) -> (r: u128)
    requires
        a < MODULUS,
        b < MODULUS,
    ensures
        r as int == add_p(a as int, b as int),
        r < MODULUS,
{
    if a >= MODULUS - b {
        let r = a - (MODULUS - b);
        proof {
            lemma_mod_sub_multiples_vanish(a as int + b as int, prime());
            lemma_small_mod((a + b - MODULUS) as nat, MODULUS as nat);
        }
        r
    } else {
        proof {
            lemma_small_mod((a + b) as nat, MODULUS as nat);
        }
        a + b
    }
}

/// `(a - b) % MODULUS` without leaving `u128`.
fn sub_mod_raw(a: u128, b: u128) -> (r: u128)
    requires
        a < MODULUS,
        b < MODULUS,
    ensures
        r as int == sub_p(a as int, b as int),
        r < MODULUS,
{
    if a >= b {
        proof {
            lemma_small_mod((a - b) as nat, MODULUS as nat);
        }
        a - b
    } else {
        let r = a + (MODULUS - b);
        proof {
            lemma_mod_add_multiples_vanish(a as int - b as int, prime());
            lemma_small_mod((a + MODULUS - b) as nat, MODULUS as nat);
        }
        r
    }
}

/// One step of the double-and-add multiplication loop preserves the
/// partial-product equation.
proof fn lemma_double_add_step(acc0: int, x0: int, y0: int, acc1: int, x1: int, m: int)
    requires
        m > 0,
        y0 >= 0,
        acc1 == (acc0 + (y0 % 2) * x0) % m,
        x1 == (x0 + x0) % m,
    ensures
        (acc1 + x1 * (y0 / 2)) % m == (acc0 + x0 * y0) % m,
{
    let b0 = y0 % 2;
    let h = y0 / 2;
    lemma_fundamental_div_mod(y0, 2);
    assert(x0 * y0 == b0 * x0 + (x0 + x0) * h) by (nonlinear_arith)
        requires
            y0 == 2 * h + b0,
    ;
    lemma_mul_mod_noop_left(x0 + x0, h, m);
    assert(x1 * h % m == (x0 + x0) * h % m);
    lemma_add_mod_noop_right(acc1, x1 * h, m);
    lemma_add_mod_noop_right(acc1, (x0 + x0) * h, m);
    assert((acc1 + x1 * h) % m == (acc1 + (x0 + x0) * h) % m);
    let a_sum = acc0 + b0 * x0;
    let b_sum = (x0 + x0) * h;
    lemma_add_mod_noop_right(a_sum % m, b_sum, m);
    lemma_add_mod_noop(a_sum, b_sum, m);
    lemma_mod_division_less_than_divisor(b_sum, m);
    assert((acc1 + b_sum) % m == (a_sum + b_sum) % m);
}

/// `(a * b) % MODULUS` by double-and-add, so that no intermediate value
/// leaves `u128`.
fn mul_mod_raw(a: u128, b: u128) -> (r: u128)
    requires
        a < MODULUS,
    ensures
        r as int == mul_p(a as int, b as int),
        r < MODULUS,
{
    let mut x: u128 = a;
    let mut y: u128 = b;
    let mut acc: u128 = 0;
    proof {
        lemma_small_mod(0nat, MODULUS as nat);
    }
    while y > 0
        invariant
            x < MODULUS,
            acc < MODULUS,
            (acc as int + x as int * y as int) % prime() == (a as int * b as int) % prime(),
        decreases y,
    {
        let ghost acc0 = acc as int;
        let ghost x0 = x as int;
        let ghost y0 = y as int;
        if y % 2 == 1 {
            acc = add_mod_raw(acc, x);
            proof {
                assert(y0 % 2 == 1);
                assert(acc as int == (acc0 + (y0 % 2) * x0) % prime());
            }
        } else {
            proof {
                lemma_mod_division_less_than_divisor(y0, 2);
                assert(y0 % 2 == 0);
                lemma_small_mod(acc as nat, MODULUS as nat);
                assert(acc as int == (acc0 + (y0 % 2) * x0) % prime());
            }
        }
        x = add_mod_raw(x, x);
        y = y / 2;
        proof {
            lemma_double_add_step(acc0, x0, y0, acc as int, x as int, prime());
        }
    }
    proof {
        lemma_small_mod(acc as nat, MODULUS as nat);
    }
    acc
}

impl FieldElement {
    /// The canonical embedding of a 64-bit integer; total, since every
    /// `u64` is already below the 128-bit modulus.
    pub fn new(v: u64) -> (r: Self)
        ensures
            r.valid(),
            r@ == v as int,
    {
        FieldElement { v: v as u128 }
    }

    /// The canonical embedding of an arbitrary 128-bit integer, reduced
    /// modulo the field prime.
    pub fn from_u128(v: u128) -> (r: Self)
        ensures
            r.valid(),
            r@ == (v as int) % prime(),
    {
        proof {
            lemma_mod_division_less_than_divisor(v as int, prime());
        }
        FieldElement { v: v % MODULUS }
    }

    /// The canonical representative of this element, as an integer.
    pub fn value(&self) -> (r: u128)
        ensures
            r as int == self@,
    {
        self.v
    }

    /// The additive identity.
    pub fn zero() -> (r: Self)
        ensures
            r.valid(),
            r@ == 0,
    {
        FieldElement { v: 0 }
    }

    /// The multiplicative identity.
    pub fn one() -> (r: Self)
        ensures
            r.valid(),
            r@ == 1,
    {
        FieldElement { v: 1 }
    }

    /// Field addition: the canonical residue of the sum.
    pub fn add(self, other: Self) -> (r: Self)
        requires
            self.valid(),
            other.valid(),
        ensures
            r.valid(),
            r@ == add_p(self@, other@),
    {
        proof {
            lemma_mod_division_less_than_divisor(self@ + other@, prime());
        }
        FieldElement { v: add_mod_raw(self.v, other.v) }
    }

    /// Field subtraction: the canonical residue of the difference.
    pub fn sub(self, other: Self) -> (r: Self)
        requires
            self.valid(),
            other.valid(),
        ensures
            r.valid(),
            r@ == sub_p(self@, other@),
    {
        proof {
            lemma_mod_division_less_than_divisor(self@ - other@, prime());
        }
        FieldElement { v: sub_mod_raw(self.v, other.v) }
    }

    /// The additive inverse: the canonical residue of the negation.
    pub fn neg(self) -> (r: Self)
        requires
            self.valid(),
        ensures
            r.valid(),
            r@ == neg_p(self@),
    {
        if self.v == 0 {
            proof {
                lemma_small_mod(0nat, MODULUS as nat);
            }
            FieldElement { v: 0 }
        } else {
            proof {
                lemma_mod_add_multiples_vanish(-self@, prime());
                lemma_small_mod((MODULUS - self.v) as nat, MODULUS as nat);
            }
            FieldElement { v: MODULUS - self.v }
        }
    }

    /// Field multiplication: the canonical residue of the product.
    pub fn mul(self, other: Self) -> (r: Self)
        requires
            self.valid(),
            other.valid(),
        ensures
            r.valid(),
            r@ == mul_p(self@, other@),
    {
        proof {
            lemma_mod_division_less_than_divisor(self@ * other@, prime());
        }
        FieldElement { v: mul_mod_raw(self.v, other.v) }
    }
}

/// `d` divides both `x` and `y`.
pub open spec fn is_common_divisor(d: int, x: int, y: int) -> bool {
    x % d == 0 && y % d == 0
}

/// If `d` divides `x` and `y`, it divides every combination `c * x + y`.
proof fn lemma_linear_divides(d: int, x: int, y: int, c: int)
    requires
        d > 0,
        x % d == 0,
        y % d == 0,
    ensures
        (c * x + y) % d == 0,
{
    lemma_fundamental_div_mod(x, d);
    assert(c * x == d * (c * (x / d))) by (nonlinear_arith)
        requires
            x == d * (x / d),
    ;
    lemma_mod_multiples_vanish(c * (x / d), y, d);
}

/// One Euclidean step keeps the set of common divisors unchanged.
proof fn lemma_euclid_step_divisors(r0: int, r1: int)
    requires
        r0 >= 0,
        r1 > 0,
    ensures
        forall|d: int|
            d > 0 ==> (#[trigger] is_common_divisor(d, r1, r0 % r1) <==> is_common_divisor(
                d,
                r0,
                r1,
            )),
{
    let q = r0 / r1;
    let r2 = r0 % r1;
    lemma_fundamental_div_mod(r0, r1);
    assert forall|d: int|
        d > 0 implies (#[trigger] is_common_divisor(d, r1, r2) <==> is_common_divisor(
        d,
        r0,
        r1,
    )) by {
        if is_common_divisor(d, r1, r2) {
            lemma_linear_divides(d, r1, r2, q);
            assert(q * r1 + r2 == r0) by (nonlinear_arith)
                requires
                    r0 == r1 * q + r2,
            ;
        }
        if is_common_divisor(d, r0, r1) {
            lemma_linear_divides(d, r1, r0, -q);
            assert((-q) * r1 + r0 == r2) by (nonlinear_arith)
                requires
                    r0 == r1 * q + r2,
            ;
        }
    }
}

/// One Euclidean step carries the Bezout relation of the coefficient `t`
/// over to the new remainder.
proof fn lemma_bezout_step(t0: int, t1: int, a: int, r0: int, r1: int, t2: int, m: int)
    requires
        m > 1,
        0 < r1 < m,
        r0 >= 0,
        (t0 * a) % m == r0 % m,
        (t1 * a) % m == r1 % m,
        t2 == (t0 - (((r0 / r1) % m) * t1) % m) % m,
    ensures
        (t2 * a) % m == (r0 % r1) % m,
{
    let q = r0 / r1;
    let r2 = r0 % r1;
    lemma_fundamental_div_mod(r0, r1);
    lemma_mul_mod_noop_left(q, t1, m);
    assert((((q % m) * t1) % m) == (q * t1) % m);
    lemma_sub_mod_noop_right(t0, q * t1, m);
    assert(t2 == (t0 - q * t1) % m);
    lemma_mul_mod_noop_left(t0 - q * t1, a, m);
    assert((t2 * a) % m == ((t0 - q * t1) * a) % m);
    assert((t0 - q * t1) * a == t0 * a - q * (t1 * a)) by (nonlinear_arith);
    lemma_mul_mod_noop_right(q, t1 * a, m);
    lemma_mul_mod_noop_right(q, r1, m);
    lemma_small_mod(r1 as nat, m as nat);
    assert((q * (t1 * a)) % m == (q * r1) % m);
    lemma_sub_mod_noop(t0 * a, q * (t1 * a), m);
    lemma_sub_mod_noop(r0, q * r1, m);
    assert((t0 * a - q * (t1 * a)) % m == (r0 - q * r1) % m);
    lemma_mod_division_less_than_divisor(r0, r1);
    lemma_small_mod(r2 as nat, m as nat);
}

impl FieldElement {
    /// The multiplicative inverse, computed by the extended Euclidean
    /// algorithm.  Succeeds exactly on the elements that are invertible
    /// modulo `MODULUS`; in particular, inverting the additive identity
    /// always fails.
    pub fn invert(&self) -> (r: Result<FieldElement, VaultError>)
        requires
            self.valid(),
        ensures
            match r {
                Ok(b) => b.valid() && mul_p(self@, b@) == 1,
                Err(e) => {
                    &&& e == VaultError::NoninvertibleElement
                    &&& forall|c: int| 0 <= c < prime() ==> mul_p(self@, c) != 1
                },
            },
            self@ == 0 ==> r is Err,
    {
        let ghost a = self@;
        let ghost m = prime();
        let mut r0: u128 = MODULUS;
        let mut r1: u128 = self.v;
        let mut t0: u128 = 0;
        let mut t1: u128 = 1;
        proof {
            lemma_mod_self_0(m);
            lemma_small_mod(r1 as nat, m as nat);
            lemma_small_mod(0nat, m as nat);
            lemma_small_mod(1nat, m as nat);
        }
        while r1 != 0
            invariant
                self.valid(),
                a == self@,
                m == prime(),
                1 <= r0 <= MODULUS,
                r1 < r0,
                t0 < MODULUS,
                t1 < MODULUS,
                (t0 as int * a) % m == (r0 as int) % m,
                (t1 as int * a) % m == (r1 as int) % m,
                forall|d: int|
                    d > 0 ==> (#[trigger] is_common_divisor(d, r0 as int, r1 as int)
                        <==> is_common_divisor(d, a, m)),
            decreases r1,
        {
            let ghost old_r0 = r0 as int;
            let ghost old_r1 = r1 as int;
            let q = r0 / r1;
            let r2 = r0 % r1;
            let t2 = sub_mod_raw(t0, mul_mod_raw(q % MODULUS, t1));
            proof {
                lemma_mod_division_less_than_divisor(q as int, m);
                lemma_bezout_step(t0 as int, t1 as int, a, old_r0, old_r1, t2 as int, m);
                lemma_euclid_step_divisors(old_r0, old_r1);
                assert forall|d: int|
                    d > 0 implies (#[trigger] is_common_divisor(d, old_r1, r2 as int)
                    <==> is_common_divisor(d, a, m)) by {
                    assert(is_common_divisor(d, old_r1, old_r0 % old_r1) <==> is_common_divisor(
                        d,
                        old_r0,
                        old_r1,
                    ));
                }
            }
            r0 = r1;
            r1 = r2;
            t0 = t1;
            t1 = t2;
        }
        if r0 == 1 {
            proof {
                lemma_small_mod(1nat, m as nat);
                assert((t0 as int * a) % m == 1);
                assert(a * t0 as int == t0 as int * a) by (nonlinear_arith);
            }
            Ok(FieldElement { v: t0 })
        } else {
            proof {
                let g = r0 as int;
                lemma_mod_self_0(g);
                lemma_small_mod(0nat, g as nat);
                assert(is_common_divisor(g, r0 as int, r1 as int));
                assert(a % g == 0 && m % g == 0);
                assert forall|c: int| 0 <= c < m implies mul_p(a, c) != 1 by {
                    if (a * c) % m == 1 {
                        lemma_fundamental_div_mod(a * c, m);
                        let k = (a * c) / m;
                        assert(a * c == m * k + 1);
                        assert(c * a + 0 == a * c) by (nonlinear_arith);
                        lemma_linear_divides(g, a, 0, c);
                        lemma_linear_divides(g, m, 0, k);
                        assert(k * m + 0 == m * k) by (nonlinear_arith);
                        lemma_sub_mod_noop(a * c, m * k, g);
                        lemma_small_mod(1nat, g as nat);
                        assert(false);
                    }
                }
            }
            Err(VaultError::NoninvertibleElement)
        }
    }
}

/// The field operations land in the canonical range: closure of the field.
pub proof fn lemma_field_ops_closed(a: int, b: int)
    ensures
        0 <= add_p(a, b) < prime(),
        0 <= sub_p(a, b) < prime(),
        0 <= mul_p(a, b) < prime(),
        0 <= neg_p(a) < prime(),
{
    lemma_mod_division_less_than_divisor(a + b, prime());
    lemma_mod_division_less_than_divisor(a - b, prime());
    lemma_mod_division_less_than_divisor(a * b, prime());
    lemma_mod_division_less_than_divisor(-a, prime());
}

/// Field addition is commutative.
pub proof fn lemma_add_p_commutative(a: int, b: int)
    ensures
        add_p(a, b) == add_p(b, a),
{
}

/// Field multiplication is commutative.
pub proof fn lemma_mul_p_commutative(a: int, b: int)
    ensures
        mul_p(a, b) == mul_p(b, a),
{
    assert(a * b == b * a) by (nonlinear_arith);
}

/// Field addition is associative.
pub proof fn lemma_add_p_associative(a: int, b: int, c: int)
    ensures
        add_p(add_p(a, b), c) == add_p(a, add_p(b, c)),
{
    lemma_add_mod_noop_right(c, a + b, prime());
    lemma_add_mod_noop_right(a, b + c, prime());
}

/// Field multiplication is associative.
pub proof fn lemma_mul_p_associative(a: int, b: int, c: int)
    ensures
        mul_p(mul_p(a, b), c) == mul_p(a, mul_p(b, c)),
{
    lemma_mul_mod_noop_left(a * b, c, prime());
    lemma_mul_mod_noop_right(a, b * c, prime());
    assert((a * b) * c == a * (b * c)) by (nonlinear_arith);
}

/// Masking is exactly undone by unmasking: adding a key and then
/// subtracting the same key returns any canonical value unchanged.
pub proof fn lemma_mask_round_trip(y: int, key: int)
    requires
        0 <= y < prime(),
        0 <= key < prime(),
    ensures
        sub_p(add_p(y, key), key) == y,
{
    let m = prime();
    lemma_small_mod(key as nat, m as nat);
    lemma_sub_mod_noop(y + key, key, m);
    lemma_small_mod(y as nat, m as nat);
}

/// An element has at most one multiplicative inverse in canonical form.
pub proof fn lemma_inverse_unique(a: int, b1: int, b2: int)
    requires
        0 <= b1 < prime(),
        0 <= b2 < prime(),
        (a * b1) % prime() == 1,
        (a * b2) % prime() == 1,
    ensures
        b1 == b2,
{
    let m = prime();
    lemma_mul_mod_noop_right(b1, a * b2, m);
    assert(b1 * ((a * b2) % m) % m == (b1 * (a * b2)) % m);
    lemma_small_mod(b1 as nat, m as nat);
    assert(b1 * ((a * b2) % m) % m == b1 % m);
    assert(b1 * (a * b2) == (a * b1) * b2) by (nonlinear_arith);
    lemma_mul_mod_noop_left(a * b1, b2, m);
    lemma_small_mod(b2 as nat, m as nat);
    assert(((a * b1) % m) * b2 % m == b2 % m);
}

} // verus!
