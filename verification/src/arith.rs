use vstd::prelude::*;
use vstd::arithmetic::div_mod::*;

verus! {

/// Truncating integer division (quotient rounded towards zero), the
/// convention of the `BigInt` division.
pub open spec fn trunc_div(a: int, b: int) -> int {
    let q = (vstd::math::abs(a) / vstd::math::abs(b)) as int;
    if (a < 0) <==> (b < 0) {
        q
    } else {
        -q
    }
}

/// A multiple of `y` in `[0, 2y)` is `0` or `y`.
pub proof fn lemma_mod_multiple_small(x: int, y: int)
    requires
        0 < y,
        0 <= x < 2 * y,
        x % y == 0,
    ensures
        x == 0 || x == y,
{
    if x < y {
        lemma_small_mod(x as nat, y as nat);
    } else {
        lemma_mod_sub_multiples_vanish(x, y);
        lemma_small_mod((x - y) as nat, y as nat);
    }
}

/// Primality of an integer.
pub open spec fn is_prime(p: int) -> bool {
    p >= 2 && forall|d: int| 2 <= d < p ==> #[trigger] (p % d) != 0
}

/// Greatest common divisor by Euclid's recurrence.
pub open spec fn gcd(a: nat, b: nat) -> nat
    decreases b,
{
    if b == 0 {
        a
    } else {
        gcd(b, a % b)
    }
}

/// Divisibility of naturals.
pub open spec fn divides(d: nat, x: nat) -> bool {
    exists|k: nat| x == #[trigger] (d * k)
}

/// The gcd divides both of its arguments.
pub proof fn lemma_gcd_divides(a: nat, b: nat)
    ensures
        divides(gcd(a, b), a),
        divides(gcd(a, b), b),
    decreases b,
{
    if b == 0 {
        assert(a == gcd(a, b) * 1);
        assert(b == gcd(a, b) * 0);
    } else {
        lemma_gcd_divides(b, a % b);
        let g = gcd(a, b);
        let k1 = choose|k: nat| b == #[trigger] (g * k);
        let k2 = choose|k: nat| a % b == #[trigger] (g * k);
        lemma_fundamental_div_mod(a as int, b as int);
        let q = a as int / b as int;
        assert(q >= 0) by {
            lemma_div_pos_is_pos(a as int, b as int);
        }
        let gi = g as int;
        let k1i = k1 as int;
        let k2i = k2 as int;
        assert(a as int == (gi * k1i) * q + gi * k2i);
        assert((gi * k1i) * q + gi * k2i == gi * (k1i * q + k2i)) by (nonlinear_arith);
        assert(k1i * q + k2i >= 0) by (nonlinear_arith)
            requires
                k1i >= 0 && q >= 0 && k2i >= 0,
        ;
        let kk = (k1i * q + k2i) as nat;
        assert(a == g * kk);
    }
}

/// A divisor of a positive natural is positive and no larger.
pub proof fn lemma_divides_bounds(d: nat, x: nat)
    requires
        divides(d, x),
        x > 0,
    ensures
        1 <= d <= x,
{
    let k = choose|k: nat| x == #[trigger] (d * k);
    assert(d * k > 0 ==> d >= 1 && k >= 1 && d * k >= d) by (nonlinear_arith);
}

/// `r` is the canonical multiplicative inverse of `a` modulo `p`.
pub open spec fn inv_rel(a: int, p: int, r: int) -> bool {
    0 <= r < p && (a * r) % p == 1
}

/// An element with an inverse modulo `p` is coprime with `p`.
pub proof fn lemma_coprime_of_inverse(a: nat, p: nat, r: int)
    requires
        p >= 1,
        (a as int * r) % (p as int) == 1,
    ensures
        gcd(a, p) == 1,
{
    let g = gcd(a, p);
    lemma_gcd_divides(a, p);
    let k1 = choose|k: nat| a == #[trigger] (g * k);
    let k2 = choose|k: nat| p == #[trigger] (g * k);
    lemma_fundamental_div_mod(a as int * r, p as int);
    let q = (a as int * r) / (p as int);
    assert(a as int * r == p as int * q + 1);
    let gi = g as int;
    assert((gi * k1) * r - (gi * k2) * q == gi * (k1 * r - k2 * q)) by (nonlinear_arith);
    assert(gi * (k1 * r - k2 * q) == 1);
    assert(gi >= 0 && gi * (k1 * r - k2 * q) == 1 ==> gi == 1) by (nonlinear_arith);
}

/// `u` and `v` are Bezout coefficients for `a` and `b`.
pub open spec fn bezout_rel(a: nat, b: nat, u: int, v: int) -> bool {
    u * a + v * b == gcd(a, b)
}

/// Bezout coefficients exist for the gcd.
pub proof fn lemma_bezout(a: nat, b: nat)
    ensures
        exists|u: int, v: int| #[trigger] bezout_rel(a, b, u, v),
    decreases b,
{
    if b == 0 {
        assert(1int * a + 0int * b == gcd(a, b)) by (nonlinear_arith)
            requires
                gcd(a, b) == a,
        ;
        assert(bezout_rel(a, b, 1int, 0int));
    } else {
        lemma_bezout(b, a % b);
        let (u1, v1): (int, int) = choose|u: int, v: int| #[trigger] bezout_rel(b, a % b, u, v);
        assert(u1 * b + v1 * ((a % b) as int) == gcd(b, a % b));
        lemma_fundamental_div_mod(a as int, b as int);
        let q = a as int / b as int;
        let m = (a % b) as int;
        assert(m == a - q * b);
        let u = v1;
        let v = u1 - v1 * q;
        assert(u1 * b + v1 * (a - q * b) == v1 * a + (u1 - v1 * q) * b) by (nonlinear_arith);
        assert(u * a + v * b == gcd(a, b));
        assert(bezout_rel(a, b, u, v));
    }
}

/// A unit modulo `p` has exactly one inverse in `[0, p)`.
pub proof fn lemma_inv_unique(p: int, a: int, u: int, w: int)
    requires
        p >= 2,
        0 <= u < p,
        0 <= w < p,
        (a * u) % p == 1,
        (a * w) % p == 1,
    ensures
        u == w,
{
    lemma_small_mod(u as nat, p as nat);
    lemma_small_mod(w as nat, p as nat);
    assert((u * (a * w)) % p == (u * ((a * w) % p)) % p) by {
        lemma_mul_mod_noop_right(u, a * w, p);
    }
    assert(u * 1 == u);
    assert(u * (a * w) == (a * u) * w) by (nonlinear_arith);
    assert(((a * u) * w) % p == (((a * u) % p) * w) % p) by {
        lemma_mul_mod_noop_left(a * u, w, p);
    }
    assert(1 * w == w);
}

/// Every nonzero residue modulo a prime has an inverse.
pub proof fn lemma_prime_inverse_exists(p: nat, a: nat)
    requires
        is_prime(p as int),
        1 <= a < p,
    ensures
        gcd(a, p) == 1,
        exists|r: int| #[trigger] inv_rel(a as int, p as int, r),
{
    let g = gcd(a, p);
    lemma_gcd_divides(a, p);
    lemma_divides_bounds(g, a);
    lemma_divides_bounds(g, p);
    if g >= 2 {
        let k = choose|k: nat| p == #[trigger] (g * k);
        assert(p as int % g as int == 0) by {
            lemma_mod_multiples_basic(k as int, g as int);
            assert(g * k == k * g) by (nonlinear_arith);
        }
        assert(2 <= g < p);
        assert(false);
    }
    lemma_bezout(a, p);
    let (u, v): (int, int) = choose|u: int, v: int| #[trigger] bezout_rel(a, p, u, v);
    assert(u * a + v * p == 1);
    let pi = p as int;
    let r = u % pi;
    lemma_mod_bound(u, pi);
    assert((a as int * r) % pi == (a as int * u) % pi) by {
        lemma_mul_mod_noop_right(a as int, u, pi);
        lemma_mul_mod_noop_right(a as int, r, pi);
        lemma_mod_twice(u, pi);
    }
    assert(a as int * u == 1 - v * pi) by (nonlinear_arith)
        requires
            u * a + v * pi == 1,
    ;
    assert((1 - v * pi) % pi == 1int % pi) by {
        lemma_mod_multiples_vanish(-v, 1, pi);
        assert((-v) * pi == -(v * pi)) by (nonlinear_arith);
    }
    lemma_small_mod(1, p);
    assert(inv_rel(a as int, p as int, r));
}

/// Adding the reduced negation subtracts: for `0 <= b < p`,
/// `(a + (p - b) % p) % p == (a - b) % p`.
pub proof fn lemma_mod_add_neg(a: int, b: int, p: int)
    requires
        p >= 2,
        0 <= b < p,
    ensures
        (a + (p - b) % p) % p == (a - b) % p,
{
    if b == 0 {
        lemma_mod_self_0(p);
    } else {
        lemma_small_mod((p - b) as nat, p as nat);
        lemma_mod_add_multiples_vanish(a - b, p);
    }
}

/// The reduced negation agrees with the residue of the negation.
pub proof fn lemma_mod_neg_form(a: int, p: int)
    requires
        p >= 2,
        0 <= a < p,
    ensures
        (p - a) % p == (-a) % p,
{
    lemma_neg_mod(a, p);
    lemma_small_mod(a as nat, p as nat);
    if a == 0 {
        lemma_mod_self_0(p);
    } else {
        lemma_small_mod((p - a) as nat, p as nat);
    }
}

/// The product of two reduced negations is the product of the originals.
pub proof fn lemma_mod_mul_neg_neg(a: int, b: int, p: int)
    requires
        p >= 2,
        0 <= a < p,
        0 <= b < p,
    ensures
        (((p - a) % p) * ((p - b) % p)) % p == (a * b) % p,
{
    lemma_mod_neg_form(a, p);
    lemma_mod_neg_form(b, p);
    lemma_mul_mod_noop_general(-a, -b, p);
    assert((-a) * (-b) == a * b) by (nonlinear_arith);
}

/// Equal products with an invertible factor have equal cofactors.
pub proof fn lemma_mod_cancel(a: int, b: int, d: int, w: int, p: int)
    requires
        p >= 2,
        0 <= a < p,
        0 <= b < p,
        inv_rel(d, p, w),
        (a * d) % p == (b * d) % p,
    ensures
        a == b,
{
    lemma_small_mod(a as nat, p as nat);
    lemma_small_mod(b as nat, p as nat);
    assert((a * (d * w)) % p == a % p) by {
        lemma_mul_mod_noop_right(a, d * w, p);
        assert(a * 1 == a);
    }
    assert((b * (d * w)) % p == b % p) by {
        lemma_mul_mod_noop_right(b, d * w, p);
        assert(b * 1 == b);
    }
    assert(a * (d * w) == (a * d) * w) by (nonlinear_arith);
    assert(b * (d * w) == (b * d) * w) by (nonlinear_arith);
    assert(((a * d) * w) % p == ((b * d) * w) % p) by {
        lemma_mul_mod_noop_left(a * d, w, p);
        lemma_mul_mod_noop_left(b * d, w, p);
    }
}

/// The residue of `-n` is `y - n % y`, reduced.
pub proof fn lemma_neg_mod(n: int, y: int)
    requires
        0 < y,
    ensures
        (-n) % y == if n % y == 0 {
            0int
        } else {
            y - (n % y)
        },
{
    lemma_add_mod_noop(n, -n, y);
    lemma_mod_bound(n, y);
    lemma_mod_bound(-n, y);
    assert((n + (-n)) % y == 0) by {
        lemma_small_mod(0, y as nat);
    }
    lemma_mod_multiple_small((n % y) + ((-n) % y), y);
}

} // verus!
