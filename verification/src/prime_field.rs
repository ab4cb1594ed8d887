use vstd::prelude::*;
use vstd::arithmetic::div_mod::*;
use vstd::arithmetic::mul::*;
use vstd::arithmetic::power::*;
use crate::arith::{gcd, inv_rel, lemma_coprime_of_inverse, lemma_inv_unique, lemma_neg_mod};
use crate::bigint::{lemma_nat_of_suffix, lemma_view_bits, nat_of, BigInt};
use crate::errors::ErrorKind;
use crate::field::Field;
use crate::rng::Lcg;

verus! {

/// Element of the prime field with `P` elements: a residue class modulo `P`,
/// stored as its canonical representative in `[0, P)`.  The modulus is a type
/// parameter, so elements of different prime fields never mix.  `P` must be
/// prime for the multiplicative structure; the representation invariant only
/// needs `P >= 2`.
#[derive(Clone, Copy, Debug, PartialEq, Eq)]
pub struct PrimeField<const P: u32> {
    pub value: u64,
}

impl<const P: u32> View for PrimeField<P> {
    type V = int;

    open spec fn view(&self) -> int {
        self.value as int
    }
}

impl<const P: u32> PrimeField<P> {
    /// The Tonelli-Shanks search: fast, and any value it returns is a
    /// root, but it may come back empty-handed (its non-residue sampling
    /// is a bounded Las Vegas search, and nothing here proves the number
    /// theory behind its completeness).
    fn sqrt_tonelli(&self, rng: &mut Lcg) -> (r: Option<Self>)
        requires
            Self::v_wf(self@),
            self@ != 0,
        ensures
            r matches Some(b) ==> Self::v_wf(b@) && Self::v_mul(b@, b@) == self@,
    {
        let ghost a = self@;
        let ghost p = P as int;
        // Euler's criterion: a residue passes
        let e: u64 = (P as u64 - 1) / 2;
        let euler = self.pow(&BigInt::from_u64(e));
        if euler.value != 1 {
            return None;
        }
        // Write P - 1 = q * 2^s with q odd.
        let mut q: u64 = P as u64 - 1;
        let mut s: u32 = 0;
        proof {
            vstd::arithmetic::power2::lemma2_to64();
        }
        while q % 2 == 0 && q > 0
            invariant
                P >= 2,
                1 <= q <= P as u64 - 1,
                s <= 32,
                (q as nat) * vstd::arithmetic::power2::pow2(s as nat) == (P - 1) as nat,
            decreases q,
        {
            proof {
                vstd::arithmetic::power2::lemma2_to64();
                let qi = q as int;
                let p2 = vstd::arithmetic::power2::pow2(s as nat) as int;
                assert(p2 <= qi * p2) by (nonlinear_arith)
                    requires
                        qi >= 1 && p2 >= 1,
                ;
                assert(s < 32) by {
                    if s == 32 {
                        assert(vstd::arithmetic::power2::pow2(32) == 0x100000000);
                        assert(false);
                    }
                }
                vstd::arithmetic::power2::lemma_pow2_unfold((s + 1) as nat);
                lemma_fundamental_div_mod(qi, 2);
                assert((qi / 2) * (2 * p2) == qi * p2) by (nonlinear_arith)
                    requires
                        qi == 2 * (qi / 2),
                ;
            }
            q = q / 2;
            s = s + 1;
        }
        // Sample a non-residue z; give up after a bounded number of draws
        // (for a prime modulus a non-residue is found almost at once).
        let mut z = PrimeField::<P> { value: 1 };
        let mut found = false;
        let mut tries: u32 = 0;
        while tries < 100000 && !found
            invariant
                P >= 2,
                Self::v_wf(z@),
            decreases 100000 - tries,
        {
            tries = tries + 1;
            let cand: u64 = rng.next_u64() % (P as u64);
            if cand != 0 {
                let ze = PrimeField::<P> { value: cand };
                let t = ze.pow(&BigInt::from_u64(e));
                if t.value != 1 {
                    z = ze;
                    found = true;
                }
            }
        }
        if !found {
            return None;
        }
        let mut m: u32 = s;
        let mut c = z.pow(&BigInt::from_u64(q));
        let mut t = self.pow(&BigInt::from_u64(q));
        let mut r = self.pow(&BigInt::from_u64((q + 1) / 2));
        while t.value != 1 && t.value != 0
            invariant
                P >= 2,
                a == self@,
                a != 0,
                Self::v_wf(a),
                Self::v_wf(c@),
                Self::v_wf(t@),
                Self::v_wf(r@),
            decreases m,
        {
            // Least i in [1, m) with t^(2^i) == 1, by repeated squaring.
            let mut i: u32 = 1;
            let mut tt = t.mul(&t);
            let mut found_i = false;
            while i < m && !found_i
                invariant
                    P >= 2,
                    Self::v_wf(tt@),
                    i >= 1,
                    found_i ==> i < m,
                decreases (m as int - i as int) + (if found_i {
                    0int
                } else {
                    1int
                }),
            {
                if tt.value == 1 {
                    found_i = true;
                } else {
                    tt = tt.mul(&tt);
                    i = i + 1;
                }
            }
            if !found_i {
                return None;
            }
            // b = c^(2^(m-i-1)) by repeated squaring.
            let mut b = c;
            let mut jj: u32 = 0;
            let steps: u32 = m - i - 1;
            while jj < steps
                invariant
                    P >= 2,
                    Self::v_wf(b@),
                decreases steps - jj,
            {
                b = b.mul(&b);
                jj = jj + 1;
            }
            m = i;
            c = b.mul(&b);
            t = t.mul(&c);
            r = r.mul(&b);
        }
        let cand = if t.value == 0 {
            PrimeField::<P> { value: 0 }
        } else {
            r
        };
        let sq = cand.mul(&cand);
        if sq.value == self.value {
            Some(cand)
        } else {
            None
        }
    }
}

impl<const P: u32> Field for PrimeField<P> {
    open spec fn v_wf(a: int) -> bool {
        P >= 2 && 0 <= a < P as int
    }

    open spec fn v_desc(a: int) -> int {
        0
    }

    open spec fn v_zero(a: int) -> int {
        0
    }

    open spec fn v_one(a: int) -> int {
        1
    }

    open spec fn v_add(a: int, b: int) -> int {
        (a + b) % (P as int)
    }

    open spec fn v_neg(a: int) -> int {
        (P as int - a) % (P as int)
    }

    open spec fn v_mul(a: int, b: int) -> int {
        (a * b) % (P as int)
    }

    open spec fn v_zmul(a: int, k: int) -> int {
        (a * k) % (P as int)
    }

    open spec fn v_pow(a: int, e: nat) -> int {
        pow(a, e) % (P as int)
    }

    open spec fn v_zpow(a: int, k: int) -> int {
        if k >= 0 {
            Self::v_pow(a, k as nat)
        } else {
            Self::v_pow(Self::v_inv(a), (-k) as nat)
        }
    }

    open spec fn v_inv(a: int) -> int {
        if Self::v_invertible(a) {
            choose|r: int| #[trigger] inv_rel(a, P as int, r)
        } else {
            0
        }
    }

    open spec fn v_invertible(a: int) -> bool {
        exists|r: int| #[trigger] inv_rel(a, P as int, r)
    }

    open spec fn v_is_square(a: int) -> bool {
        pow(a, ((P as int - 1) / 2) as nat) % (P as int) == 1
    }

    open spec fn v_order(a: int) -> nat {
        P as nat
    }

    open spec fn v_base_order() -> nat {
        P as nat
    }

    open spec fn v_degree() -> nat {
        1
    }

    proof fn axiom_desc(a: int, b: int) {
    }

    proof fn axiom_ops_wf(a: int, b: int) {
        let p = P as int;
        lemma_mod_bound(a + b, p);
        lemma_mod_bound(a * b, p);
        lemma_mod_bound(p - a, p);
        if Self::v_invertible(a) {
            let r = choose|r: int| #[trigger] inv_rel(a, p, r);
            assert(0 <= r < p);
        }
    }

    proof fn axiom_iter_ops_wf(a: int, k: int, e: nat) {
        let p = P as int;
        lemma_mod_bound(a * k, p);
        lemma_mod_bound(pow(a, e), p);
        if k >= 0 {
            lemma_mod_bound(pow(a, k as nat), p);
        } else {
            lemma_mod_bound(pow(Self::v_inv(a), (-k) as nat), p);
        }
    }

    fn zero(&self) -> (r: Self) {
        PrimeField { value: 0 }
    }

    fn one(&self) -> (r: Self) {
        PrimeField { value: 1 }
    }

    fn is_zero(&self) -> (b: bool) {
        self.value == 0
    }

    fn equals(&self, y: &Self) -> (b: bool) {
        self.value == y.value
    }

    fn dup(&self) -> (r: Self) {
        PrimeField { value: self.value }
    }

    fn add(&self, y: &Self) -> (r: Self) {
        proof {
            lemma_mod_bound(self@ + y@, P as int);
        }
        PrimeField { value: (self.value + y.value) % (P as u64) }
    }

    fn neg(&self) -> (r: Self) {
        proof {
            lemma_mod_bound(P as int - self@, P as int);
        }
        PrimeField { value: (P as u64 - self.value) % (P as u64) }
    }

    fn mul(&self, y: &Self) -> (r: Self) {
        proof {
            assert(self.value * y.value < 0x10000000000000000) by (nonlinear_arith)
                requires
                    self.value < 0x100000000 && y.value < 0x100000000,
            ;
            lemma_mod_bound(self@ * y@, P as int);
        }
        PrimeField { value: (self.value * y.value) % (P as u64) }
    }

    fn zmul(&self, y: i64) -> (r: Self) {
        let neg: bool = y < 0;
        let wide: i128 = y as i128;
        let mag: u128 = if neg {
            (-wide) as u128
        } else {
            wide as u128
        };
        let yr: u64 = (mag % (P as u128)) as u64;
        proof {
            assert(self.value * yr < 0x10000000000000000) by (nonlinear_arith)
                requires
                    self.value < 0x100000000 && yr < 0x100000000,
            ;
            lemma_mod_bound(self@ * (yr as int), P as int);
        }
        let t: u64 = (self.value * yr) % (P as u64);
        proof {
            let p = P as int;
            let a = self@;
            let k = y as int;
            let m = mag as int;
            lemma_mul_mod_noop_right(a, m, p);
            lemma_mod_bound(a * m, p);
            lemma_mod_bound(a * k, p);
            if neg {
                assert(a * k == -(a * m)) by (nonlinear_arith)
                    requires
                        k == -m,
                ;
                lemma_neg_mod(a * m, p);
            } else {
                assert(a * k == a * m);
            }
        }
        if neg && t != 0 {
            PrimeField { value: P as u64 - t }
        } else {
            PrimeField { value: t }
        }
    }

    fn pow(&self, y: &BigInt) -> (r: Self) {
        proof {
            lemma_view_bits(y);
        }
        let ghost e = y.bits@;
        let ghost a = self@;
        let ghost p = P as int;
        let n = y.bits.len();
        let mut result: u64 = 1;
        let mut j: usize = n;
        proof {
            assert(e.subrange(n as int, n as int) =~= Seq::<bool>::empty());
            assert(nat_of(Seq::<bool>::empty()) == 0);
            lemma_pow0(a);
            lemma_small_mod(1, P as nat);
        }
        while j > 0
            invariant
                j <= n,
                n == e.len(),
                e == y.bits@,
                P >= 2,
                a == self@,
                p == P as int,
                0 <= a < p,
                self.value < P as u64,
                result < P as u64,
                result as int == pow(a, nat_of(e.subrange(j as int, n as int))) % p,
            decreases j,
        {
            let k = j - 1;
            let ghost mid = nat_of(e.subrange(j as int, n as int));
            proof {
                assert(result * result < 0x10000000000000000) by (nonlinear_arith)
                    requires
                        result < 0x100000000,
                ;
                lemma_mod_bound((result as int) * (result as int), p);
                lemma_mul_mod_noop_general(pow(a, mid), pow(a, mid), p);
                lemma_pow_adds(a, mid, mid);
            }
            let r2: u64 = (result * result) % (P as u64);
            let mut r3: u64 = r2;
            if y.bits[k] {
                proof {
                    assert(r2 * self.value < 0x10000000000000000) by (nonlinear_arith)
                        requires
                            r2 < 0x100000000 && self.value < 0x100000000,
                    ;
                    lemma_mod_bound((r2 as int) * a, p);
                    lemma_mul_mod_noop_left(pow(a, mid + mid), a, p);
                    lemma_pow_adds(a, mid + mid, 1);
                    lemma_pow1(a);
                }
                r3 = (r2 * self.value) % (P as u64);
            }
            proof {
                lemma_nat_of_suffix(e, k as int);
            }
            result = r3;
            j = k;
        }
        proof {
            assert(e.subrange(0, n as int) =~= e);
        }
        PrimeField { value: result }
    }

    fn zpow(&self, y: i64) -> (r: Self) {
        if y >= 0 {
            self.pow(&BigInt::from_u64(y as u64))
        } else {
            let inv = match self.invert() {
                Ok(b) => b,
                Err(_) => {
                    proof {
                        assert(false);
                    }
                    Box::new(PrimeField { value: 0 })
                },
            };
            let wide: i128 = y as i128;
            let mag: u64 = (-wide) as u64;
            inv.pow(&BigInt::from_u64(mag))
        }
    }

    fn square(&self) -> (r: Self) {
        self.mul(self)
    }

    fn sqrt(&self, rng: &mut Lcg) -> (r: Result<Box<Self>, ErrorKind>) {
        let ghost a = self@;
        let ghost p = P as int;
        let p64: u64 = P as u64;
        if self.value == 0 {
            proof {
                lemma_small_mod(0, P as nat);
                assert(Self::v_mul(0, 0) == 0);
            }
            return Ok(Box::new(PrimeField { value: 0 }));
        }
        // the fast Tonelli-Shanks path
        match self.sqrt_tonelli(rng) {
            Some(b) => {
                proof {
                    assert(Self::v_mul(b@, b@) == a);
                }
                Ok(Box::new(b))
            },
            None => {
                // exhaustive fallback: scan the whole field, so that a
                // failure really means that no root exists
                let mut y: u64 = 0;
                while y < p64
                    invariant
                        P >= 2,
                        p == P as int,
                        p64 == P as u64,
                        a == self@,
                        a != 0,
                        0 <= a < p,
                        self.value < p64,
                        forall|z: int| 0 <= z < y ==> #[trigger] ((z * z) % p) != a,
                    decreases p64 - y,
                {
                    proof {
                        assert(y * y < 0x10000000000000000) by (nonlinear_arith)
                            requires
                                y < 0x100000000,
                        ;
                        lemma_mod_bound((y as int) * (y as int), p);
                    }
                    let sq = (y * y) % p64;
                    if sq == self.value {
                        proof {
                            assert(Self::v_mul(y as int, y as int) == a);
                        }
                        return Ok(Box::new(PrimeField { value: y }));
                    }
                    y = y + 1;
                }
                proof {
                    if exists|yy: int|
                        Self::v_wf(yy) && Self::v_desc(yy) == Self::v_desc(a) && #[trigger] Self::v_mul(
                            yy,
                            yy,
                        ) == a {
                        let w = choose|yy: int|
                            Self::v_wf(yy) && Self::v_desc(yy) == Self::v_desc(a) && #[trigger] Self::v_mul(
                                yy,
                                yy,
                            ) == a;
                        assert((w * w) % p != a);
                        assert(false);
                    }
                }
                Err(ErrorKind::NonQuadraticResidue)
            },
        }
    }

    fn is_square(&self) -> (b: bool) {
        let e: u64 = (P as u64 - 1) / 2;
        let pw = self.pow(&BigInt::from_u64(e));
        pw.value == 1
    }

    fn invert(&self) -> (r: Result<Box<Self>, ErrorKind>) {
        let ghost ai = self@;
        let ghost pi = P as int;
        let p64: u64 = P as u64;
        let a: u64 = self.value;
        let mut r0: u64 = a;
        let mut r1: u64 = p64;
        let mut u0: u64 = 1;
        let mut u1: u64 = 0;
        proof {
            lemma_small_mod(a as nat, P as nat);
            lemma_small_mod(1, P as nat);
            lemma_mod_self_0(pi);
            assert(1int * ai == ai);
            assert(0int * ai == 0);
        }
        while r1 > 0
            invariant
                P >= 2,
                p64 == P as u64,
                pi == P as int,
                ai == self@,
                a == self.value,
                a < p64,
                ai == a as int,
                r0 <= p64,
                r1 <= p64,
                u0 < p64,
                u1 < p64,
                gcd(r0 as nat, r1 as nat) == gcd(a as nat, P as nat),
                (r0 as int) % pi == ((u0 as int) * ai) % pi,
                (r1 as int) % pi == ((u1 as int) * ai) % pi,
            decreases r1,
        {
            let q: u64 = r0 / r1;
            let r2: u64 = r0 % r1;
            proof {
                assert(q * u1 < 0x10000000000000000) by (nonlinear_arith)
                    requires
                        q <= 0xffffffff && u1 < 0x100000000,
                ;
                assert(q <= p64) by {
                    assert(r0 / r1 <= r0) by (nonlinear_arith)
                        requires
                            r1 >= 1,
                    ;
                }
            }
            let tq: u64 = (q * u1) % p64;
            let u2: u64 = (u0 + (p64 - tq)) % p64;
            proof {
                let qi = q as int;
                let r0i = r0 as int;
                let r1i = r1 as int;
                let r2i = r2 as int;
                let u0i = u0 as int;
                let u1i = u1 as int;
                let u2i = u2 as int;
                lemma_mod_bound(qi * u1i, pi);
                lemma_mod_bound(u0i + (pi - (qi * u1i) % pi), pi);
                // u2 == (u0 - q*u1) mod p
                assert(u2i == (u0i + pi - (qi * u1i) % pi) % pi);
                assert((u0i + pi - (qi * u1i) % pi) % pi == (u0i - (qi * u1i) % pi) % pi) by {
                    lemma_mod_add_multiples_vanish(u0i - (qi * u1i) % pi, pi);
                }
                assert((u0i - (qi * u1i) % pi) % pi == (u0i - qi * u1i) % pi) by {
                    lemma_sub_mod_noop_right(u0i, qi * u1i, pi);
                }
                // r2 == r0 - q*r1, exactly
                assert(r0i == r1i * (r0i / r1i) + r0i % r1i) by {
                    lemma_fundamental_div_mod(r0i, r1i);
                }
                assert(r2i == r0i - qi * r1i);
                // r2 mod p == ((u0 - q*u1) * a) mod p
                assert((qi * r1i) % pi == ((qi * u1i) * ai) % pi) by {
                    lemma_mul_mod_noop_right(qi, r1i, pi);
                    lemma_mul_mod_noop_right(qi, u1i * ai, pi);
                    assert(qi * (u1i * ai) == (qi * u1i) * ai) by (nonlinear_arith);
                }
                assert((r0i - qi * r1i) % pi == ((u0i * ai) % pi - ((qi * u1i) * ai) % pi) % pi)
                    by {
                    lemma_sub_mod_noop(r0i, qi * r1i, pi);
                    assert((r0i % pi - (qi * r1i) % pi) % pi == ((u0i * ai) % pi - ((qi * u1i) * ai)
                        % pi) % pi);
                }
                assert(((u0i * ai) % pi - ((qi * u1i) * ai) % pi) % pi == (u0i * ai - (qi * u1i)
                    * ai) % pi) by {
                    lemma_sub_mod_noop(u0i * ai, (qi * u1i) * ai, pi);
                }
                assert(u0i * ai - (qi * u1i) * ai == (u0i - qi * u1i) * ai) by (nonlinear_arith);
                assert(((u0i - qi * u1i) * ai) % pi == (((u0i - qi * u1i) % pi) * ai) % pi) by {
                    lemma_mul_mod_noop_left(u0i - qi * u1i, ai, pi);
                }
                assert(r2i % pi == (u2i * ai) % pi) by {
                    lemma_small_mod(r2 as nat, P as nat);
                    assert(r2i < pi) by {
                        assert(r2i < r1i);
                    }
                }
                // gcd step is Euclid's definition
                assert(gcd(r0 as nat, r1 as nat) == gcd(r1 as nat, r2 as nat));
            }
            r0 = r1;
            r1 = r2;
            u0 = u1;
            u1 = u2;
        }
        proof {
            assert(gcd(r0 as nat, 0) == r0 as nat);
        }
        if r0 == 1 {
            proof {
                lemma_small_mod(1, P as nat);
                assert((u0 as int * ai) % pi == 1);
                assert((ai * u0 as int) % pi == 1) by {
                    lemma_mul_is_commutative(ai, u0 as int);
                }
                assert(inv_rel(ai, pi, u0 as int));
                assert(Self::v_invertible(ai));
                let w = choose|r: int| #[trigger] inv_rel(ai, pi, r);
                assert(inv_rel(ai, pi, w));
                lemma_inv_unique(pi, ai, u0 as int, w);
            }
            Ok(Box::new(PrimeField { value: u0 }))
        } else {
            proof {
                if Self::v_invertible(ai) {
                    let w = choose|r: int| #[trigger] inv_rel(ai, pi, r);
                    assert(inv_rel(ai, pi, w));
                    lemma_coprime_of_inverse(a as nat, P as nat, w);
                    assert(false);
                }
            }
            Err(ErrorKind::NoInverse)
        }
    }

    fn div(&self, y: &Self) -> (r: Result<Box<Self>, ErrorKind>) {
        match y.invert() {
            Ok(i) => Ok(Box::new(self.mul(&i))),
            Err(e) => Err(e),
        }
    }

    fn degree() -> (d: usize) {
        1
    }

    fn order(&self) -> (r: BigInt) {
        BigInt::from_u64(P as u64)
    }

    fn base_order() -> (r: BigInt) {
        BigInt::from_u64(P as u64)
    }

    fn random_element(&self, rng: &mut Lcg) -> (r: Self) {
        let x = rng.next_u64();
        PrimeField { value: x % (P as u64) }
    }
}

// ---------------------------------------------------------------------------
// Field laws of the prime field.
// ---------------------------------------------------------------------------

/// Addition is commutative.
pub proof fn lemma_pf_add_comm<const P: u32>(a: int, b: int)
    requires
        PrimeField::<P>::v_wf(a),
        PrimeField::<P>::v_wf(b),
    ensures
        PrimeField::<P>::v_add(a, b) == PrimeField::<P>::v_add(b, a),
{
}

/// Addition is associative.
pub proof fn lemma_pf_add_assoc<const P: u32>(a: int, b: int, c: int)
    requires
        PrimeField::<P>::v_wf(a),
        PrimeField::<P>::v_wf(b),
        PrimeField::<P>::v_wf(c),
    ensures
        PrimeField::<P>::v_add(PrimeField::<P>::v_add(a, b), c) == PrimeField::<P>::v_add(
            a,
            PrimeField::<P>::v_add(b, c),
        ),
{
    let p = P as int;
    lemma_small_mod(a as nat, P as nat);
    lemma_small_mod(c as nat, P as nat);
    assert(((a + b) % p + c) % p == (a + b + c) % p) by {
        lemma_add_mod_noop(a + b, c, p);
    }
    assert((a + (b + c) % p) % p == (a + (b + c)) % p) by {
        lemma_add_mod_noop(a, b + c, p);
    }
}

/// The zero is neutral for addition.
pub proof fn lemma_pf_add_zero<const P: u32>(a: int)
    requires
        PrimeField::<P>::v_wf(a),
    ensures
        PrimeField::<P>::v_add(a, PrimeField::<P>::v_zero(a)) == a,
{
    lemma_small_mod(a as nat, P as nat);
}

/// Every element cancels with its negation.
pub proof fn lemma_pf_add_neg<const P: u32>(a: int)
    requires
        PrimeField::<P>::v_wf(a),
    ensures
        PrimeField::<P>::v_add(a, PrimeField::<P>::v_neg(a)) == PrimeField::<P>::v_zero(a),
{
    let p = P as int;
    lemma_mod_self_0(p);
    lemma_small_mod(0, P as nat);
    if a != 0 {
        lemma_small_mod((p - a) as nat, P as nat);
    }
}

/// Multiplication is commutative.
pub proof fn lemma_pf_mul_comm<const P: u32>(a: int, b: int)
    requires
        PrimeField::<P>::v_wf(a),
        PrimeField::<P>::v_wf(b),
    ensures
        PrimeField::<P>::v_mul(a, b) == PrimeField::<P>::v_mul(b, a),
{
    lemma_mul_is_commutative(a, b);
}

/// Multiplication is associative.
pub proof fn lemma_pf_mul_assoc<const P: u32>(a: int, b: int, c: int)
    requires
        PrimeField::<P>::v_wf(a),
        PrimeField::<P>::v_wf(b),
        PrimeField::<P>::v_wf(c),
    ensures
        PrimeField::<P>::v_mul(PrimeField::<P>::v_mul(a, b), c) == PrimeField::<P>::v_mul(
            a,
            PrimeField::<P>::v_mul(b, c),
        ),
{
    let p = P as int;
    assert(((a * b) % p) * c % p == (a * b) * c % p) by {
        lemma_mul_mod_noop_left(a * b, c, p);
    }
    assert(a * ((b * c) % p) % p == a * (b * c) % p) by {
        lemma_mul_mod_noop_right(a, b * c, p);
    }
    assert((a * b) * c == a * (b * c)) by (nonlinear_arith);
}

/// Multiplication distributes over addition.
pub proof fn lemma_pf_distrib<const P: u32>(a: int, b: int, c: int)
    requires
        PrimeField::<P>::v_wf(a),
        PrimeField::<P>::v_wf(b),
        PrimeField::<P>::v_wf(c),
    ensures
        PrimeField::<P>::v_mul(a, PrimeField::<P>::v_add(b, c)) == PrimeField::<P>::v_add(
            PrimeField::<P>::v_mul(a, b),
            PrimeField::<P>::v_mul(a, c),
        ),
{
    let p = P as int;
    assert(a * ((b + c) % p) % p == a * (b + c) % p) by {
        lemma_mul_mod_noop_right(a, b + c, p);
    }
    assert(a * (b + c) == a * b + a * c) by (nonlinear_arith);
    assert(((a * b) % p + (a * c) % p) % p == (a * b + a * c) % p) by {
        lemma_add_mod_noop(a * b, a * c, p);
    }
}

/// The one is neutral for multiplication.
pub proof fn lemma_pf_mul_one<const P: u32>(a: int)
    requires
        PrimeField::<P>::v_wf(a),
    ensures
        PrimeField::<P>::v_mul(a, PrimeField::<P>::v_one(a)) == a,
{
    lemma_small_mod(a as nat, P as nat);
}

/// Over a prime modulus every nonzero element is invertible, and it cancels
/// with its inverse.
pub proof fn lemma_pf_mul_inverse<const P: u32>(a: int)
    requires
        crate::arith::is_prime(P as int),
        PrimeField::<P>::v_wf(a),
        a != PrimeField::<P>::v_zero(a),
    ensures
        PrimeField::<P>::v_invertible(a),
        PrimeField::<P>::v_mul(a, PrimeField::<P>::v_inv(a)) == PrimeField::<P>::v_one(a),
{
    crate::arith::lemma_prime_inverse_exists(P as nat, a as nat);
    assert(PrimeField::<P>::v_invertible(a));
    let w = choose|r: int| #[trigger] inv_rel(a, P as int, r);
    assert(inv_rel(a, P as int, w));
}

/// Negating numerator and denominator leaves a fraction unchanged.
pub proof fn lemma_pf_opp_frac<const P: u32>(n: int, d: int)
    requires
        P >= 2,
        0 <= n < P as int,
        0 <= d < P as int,
    ensures
        PrimeField::<P>::v_invertible(d) <==> PrimeField::<P>::v_invertible(
            (P as int - d) % (P as int),
        ),
        PrimeField::<P>::v_invertible(d) ==> PrimeField::<P>::v_mul(n, PrimeField::<P>::v_inv(d))
            == PrimeField::<P>::v_mul(
            (P as int - n) % (P as int),
            PrimeField::<P>::v_inv((P as int - d) % (P as int)),
        ),
{
    let p = P as int;
    let d2 = (p - d) % p;
    let n2 = (p - n) % p;
    lemma_mod_bound(p - d, p);
    lemma_mod_bound(p - n, p);
    if PrimeField::<P>::v_invertible(d) {
        let w = choose|r: int| #[trigger] inv_rel(d, p, r);
        assert(inv_rel(d, p, w));
        let w2 = (p - w) % p;
        lemma_mod_bound(p - w, p);
        crate::arith::lemma_mod_mul_neg_neg(d, w, p);
        assert(inv_rel(d2, p, w2));
        assert(PrimeField::<P>::v_invertible(d2));
        let wd2 = PrimeField::<P>::v_inv(d2);
        assert(inv_rel(d2, p, wd2));
        crate::arith::lemma_inv_unique(p, d2, wd2, w2);
        let wd = PrimeField::<P>::v_inv(d);
        assert(inv_rel(d, p, wd));
        crate::arith::lemma_inv_unique(p, d, wd, w);
        crate::arith::lemma_mod_mul_neg_neg(n, w, p);
    }
    if PrimeField::<P>::v_invertible(d2) && !PrimeField::<P>::v_invertible(d) {
        let w = choose|r: int| #[trigger] inv_rel(d2, p, r);
        assert(inv_rel(d2, p, w));
        let w2 = (p - w) % p;
        lemma_mod_bound(p - w, p);
        crate::arith::lemma_mod_mul_neg_neg(d2, w, p);
        assert((p - d2) % p == d) by {
            if d == 0 {
                lemma_mod_self_0(p);
            } else {
                lemma_small_mod((p - d) as nat, p as nat);
                lemma_small_mod(d as nat, p as nat);
            }
        }
        assert(inv_rel(d, p, w2));
        assert(false);
    }
}

/// Powers: the zero exponent gives one, the exponent one gives the element.
pub proof fn lemma_pf_pow_zero_one<const P: u32>(a: int)
    requires
        PrimeField::<P>::v_wf(a),
    ensures
        PrimeField::<P>::v_pow(a, 0) == PrimeField::<P>::v_one(a),
        PrimeField::<P>::v_pow(a, 1) == a,
{
    lemma_pow0(a);
    lemma_pow1(a);
    lemma_small_mod(1, P as nat);
    lemma_small_mod(a as nat, P as nat);
}

/// Powers: exponents add under multiplication.
pub proof fn lemma_pf_pow_adds<const P: u32>(a: int, m: nat, n: nat)
    requires
        PrimeField::<P>::v_wf(a),
    ensures
        PrimeField::<P>::v_mul(PrimeField::<P>::v_pow(a, m), PrimeField::<P>::v_pow(a, n))
            == PrimeField::<P>::v_pow(a, m + n),
{
    let p = P as int;
    lemma_pow_adds(a, m, n);
    lemma_mul_mod_noop_general(pow(a, m), pow(a, n), p);
}

} // verus!
