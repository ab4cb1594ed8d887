use vstd::prelude::*;
use vstd::arithmetic::div_mod::*;
use vstd::arithmetic::mul::*;
use vstd::arithmetic::power::pow;
use vstd::arithmetic::power2::*;

verus! {

// ---------------------------------------------------------------------------
// The mathematical value of a bit sequence, least-significant bit first.
// ---------------------------------------------------------------------------

/// Value of a least-significant-first bit sequence.
pub open spec fn nat_of(s: Seq<bool>) -> nat
    decreases s.len(),
{
    if s.len() == 0 {
        0
    } else {
        (if s[0] {
            1nat
        } else {
            0nat
        }) + 2 * nat_of(s.subrange(1, s.len() as int))
    }
}

/// A bit sequence is canonical when it has no trailing `false`:
/// zero is the empty sequence.
pub open spec fn is_canon(s: Seq<bool>) -> bool {
    s.len() == 0 || s[s.len() - 1]
}

pub open spec fn bit_nat(b: bool) -> nat {
    if b {
        1
    } else {
        0
    }
}

/// The bit of `s` at position `i`, `false` beyond the end.
pub open spec fn bit_at(s: Seq<bool>, i: int) -> bool {
    if 0 <= i < s.len() {
        s[i]
    } else {
        false
    }
}

/// Value of the first `i` bits of `s` (all of `s` if `i` exceeds its length).
pub open spec fn low(s: Seq<bool>, i: int) -> nat {
    nat_of(s.subrange(0, if i <= s.len() { i } else { s.len() as int }))
}

pub proof fn lemma_nat_of_suffix(s: Seq<bool>, i: int)
    requires
        0 <= i < s.len(),
    ensures
        nat_of(s.subrange(i, s.len() as int)) == bit_nat(s[i]) + 2 * nat_of(
            s.subrange(i + 1, s.len() as int),
        ),
{
    let t = s.subrange(i, s.len() as int);
    assert(t.subrange(1, t.len() as int) =~= s.subrange(i + 1, s.len() as int));
}

pub proof fn lemma_nat_of_push(s: Seq<bool>, b: bool)
    ensures
        nat_of(s.push(b)) == nat_of(s) + bit_nat(b) * pow2(s.len()),
    decreases s.len(),
{
    lemma2_to64();
    if s.len() == 0 {
        assert(s.push(b).subrange(1, 1) =~= Seq::<bool>::empty());
        assert(nat_of(Seq::<bool>::empty()) == 0);
        assert(s.push(b).len() == 1);
        assert(s.push(b)[0] == b);
        assert(nat_of(s.push(b)) == bit_nat(b));
        assert(s =~= Seq::<bool>::empty());
    } else {
        let t = s.subrange(1, s.len() as int);
        assert(s.push(b).subrange(1, s.len() as int + 1) =~= t.push(b));
        lemma_nat_of_push(t, b);
        lemma_pow2_unfold(s.len());
        assert(nat_of(s.push(b)) == bit_nat(s[0]) + 2 * (nat_of(t) + bit_nat(b) * pow2(
            (s.len() - 1) as nat,
        )));
        assert(2 * (nat_of(t) + bit_nat(b) * pow2((s.len() - 1) as nat)) == 2 * nat_of(t) + bit_nat(
            b,
        ) * (2 * pow2((s.len() - 1) as nat))) by (nonlinear_arith);
    }
}

/// Splitting a bit sequence at `i`: value = low part + 2^i * high part.
pub proof fn lemma_nat_of_split(s: Seq<bool>, i: int)
    requires
        0 <= i <= s.len(),
    ensures
        nat_of(s) == nat_of(s.subrange(0, i)) + pow2(i as nat) * nat_of(
            s.subrange(i, s.len() as int),
        ),
    decreases i,
{
    lemma2_to64();
    if i == 0 {
        assert(s.subrange(0, 0) =~= Seq::<bool>::empty());
        assert(s.subrange(0, s.len() as int) =~= s);
        assert(nat_of(Seq::<bool>::empty()) == 0);
        assert(pow2(0) == 1);
        assert(pow2(0) * nat_of(s) == nat_of(s));
    } else {
        lemma_nat_of_split(s, i - 1);
        lemma_nat_of_suffix(s, i - 1);
        assert(s.subrange(0, i) =~= s.subrange(0, i - 1).push(s[i - 1]));
        lemma_nat_of_push(s.subrange(0, i - 1), s[i - 1]);
        lemma_pow2_unfold(i as nat);
        let p = pow2((i - 1) as nat) as int;
        let c = bit_nat(s[i - 1]) as int;
        let lo = nat_of(s.subrange(0, i - 1)) as int;
        let hi = nat_of(s.subrange(i, s.len() as int)) as int;
        let mid = nat_of(s.subrange(i - 1, s.len() as int)) as int;
        assert(mid == c + 2 * hi);
        assert(nat_of(s) == lo + p * mid);
        assert(nat_of(s.subrange(0, i)) == lo + c * p);
        assert(pow2(i as nat) == 2 * p);
        assert(p * (c + 2 * hi) == c * p + (2 * p) * hi) by (nonlinear_arith);
        assert(nat_of(s) == (lo + c * p) + (2 * p) * hi);
        assert(pow2(i as nat) * nat_of(s.subrange(i, s.len() as int)) == (2 * p) * hi);
    }
}

pub proof fn lemma_nat_of_bound(s: Seq<bool>)
    ensures
        nat_of(s) < pow2(s.len()),
    decreases s.len(),
{
    lemma2_to64();
    if s.len() > 0 {
        let t = s.subrange(1, s.len() as int);
        lemma_nat_of_bound(t);
        lemma_pow2_unfold(s.len());
    }
}

pub proof fn lemma_nat_of_canon_lower(s: Seq<bool>)
    requires
        s.len() > 0,
        s[s.len() - 1],
    ensures
        nat_of(s) >= pow2((s.len() - 1) as nat),
{
    lemma_nat_of_split(s, s.len() - 1);
    let t = s.subrange(s.len() - 1, s.len() as int);
    assert(t.len() == 1 && t[0]);
    assert(t.subrange(1, 1) =~= Seq::<bool>::empty());
    assert(nat_of(Seq::<bool>::empty()) == 0);
    assert(nat_of(t) == 1);
    assert(pow2((s.len() - 1) as nat) * 1 == pow2((s.len() - 1) as nat));
}

/// For canonical sequences, value zero means the empty sequence.
pub proof fn lemma_canon_zero(s: Seq<bool>)
    requires
        is_canon(s),
    ensures
        (nat_of(s) == 0) <==> (s.len() == 0),
{
    if s.len() > 0 {
        lemma_nat_of_canon_lower(s);
        lemma_pow2_pos((s.len() - 1) as nat);
    }
}

/// A canonical sequence with fewer bits has a smaller value.
pub proof fn lemma_canon_shorter_smaller(s: Seq<bool>, t: Seq<bool>)
    requires
        is_canon(t),
        s.len() < t.len(),
    ensures
        nat_of(s) < nat_of(t),
{
    lemma_nat_of_bound(s);
    lemma_nat_of_canon_lower(t);
    if s.len() < t.len() - 1 {
        lemma_pow2_strictly_increases(s.len(), (t.len() - 1) as nat);
    }
}

proof fn lemma_low_step(s: Seq<bool>, i: int)
    requires
        0 <= i,
    ensures
        low(s, i + 1) == low(s, i) + bit_nat(bit_at(s, i)) * pow2(i as nat),
{
    if i < s.len() {
        assert(s.subrange(0, i + 1) =~= s.subrange(0, i).push(s[i]));
        lemma_nat_of_push(s.subrange(0, i), s[i]);
    }
}

proof fn lemma_low_all(s: Seq<bool>, i: int)
    requires
        s.len() <= i,
    ensures
        low(s, i) == nat_of(s),
{
    assert(s.subrange(0, s.len() as int) =~= s);
}

// ---------------------------------------------------------------------------
// Executable magnitude arithmetic on canonical bit vectors.
// ---------------------------------------------------------------------------

/// Remove trailing `false` bits, keeping the value.
fn trim(v: Vec<bool>) -> (r: Vec<bool>)
    ensures
        is_canon(r@),
        nat_of(r@) == nat_of(v@),
{
    let mut w = v;
    while w.len() > 0 && !w[w.len() - 1]
        invariant
            nat_of(w@) == nat_of(v@),
        decreases w.len(),
    {
        proof {
            let s0 = w@;
            let pre = s0.subrange(0, s0.len() - 1);
            assert(s0 =~= pre.push(s0[s0.len() - 1]));
            lemma_nat_of_push(pre, s0[s0.len() - 1]);
            assert(!s0[s0.len() - 1]);
            assert(bit_nat(s0[s0.len() - 1]) * pow2(pre.len()) == 0);
            assert(nat_of(pre) == nat_of(s0));
        }
        let _dropped = w.pop();
    }
    w
}

/// Magnitude addition: `nat_of(r) == nat_of(a) + nat_of(b)`.
fn add_mag(a: &Vec<bool>, b: &Vec<bool>) -> (r: Vec<bool>)
    ensures
        is_canon(r@),
        nat_of(r@) == nat_of(a@) + nat_of(b@),
{
    let n: usize = if a.len() > b.len() {
        a.len()
    } else {
        b.len()
    };
    let mut r: Vec<bool> = Vec::new();
    let mut carry: bool = false;
    let mut i: usize = 0;
    proof {
        lemma2_to64();
    }
    while i < n
        invariant
            i <= n,
            a@.len() <= n,
            b@.len() <= n,
            r@.len() == i,
            nat_of(r@) + bit_nat(carry) * pow2(i as nat) == low(a@, i as int) + low(b@, i as int),
        decreases n - i,
    {
        let av: bool = if i < a.len() {
            a[i]
        } else {
            false
        };
        let bv: bool = if i < b.len() {
            b[i]
        } else {
            false
        };
        let s: u8 = (if av {
            1
        } else {
            0
        }) + (if bv {
            1
        } else {
            0
        }) + (if carry {
            1
        } else {
            0
        });
        let bit: bool = s % 2 == 1;
        let newc: bool = s >= 2;
        proof {
            lemma_nat_of_push(r@, bit);
            lemma_low_step(a@, i as int);
            lemma_low_step(b@, i as int);
            lemma_pow2_unfold((i + 1) as nat);
            assert(bit_nat(bit) + 2 * bit_nat(newc) == bit_nat(av) + bit_nat(bv) + bit_nat(carry));
            let p = pow2(i as nat) as int;
            let w = bit_nat(bit) as int;
            let x = bit_nat(newc) as int;
            let y = bit_nat(av) as int;
            let z = bit_nat(bv) as int;
            let u = bit_nat(carry) as int;
            assert(w + 2 * x == y + z + u ==> w * p + x * (2 * p) == y * p + z * p + u * p)
                by (nonlinear_arith);
        }
        r.push(bit);
        carry = newc;
        i += 1;
    }
    if carry {
        proof {
            lemma_nat_of_push(r@, true);
        }
        r.push(true);
    }
    proof {
        lemma_low_all(a@, n as int);
        lemma_low_all(b@, n as int);
    }
    trim(r)
}

/// Magnitude comparison of canonical bit vectors:
/// returns -1, 0, 1 as `nat_of(a) <, ==, > nat_of(b)`.
fn mag_cmp(a: &Vec<bool>, b: &Vec<bool>) -> (c: i8)
    requires
        is_canon(a@),
        is_canon(b@),
    ensures
        c == -1i8 <==> nat_of(a@) < nat_of(b@),
        c == 0i8 <==> nat_of(a@) == nat_of(b@),
        c == 1i8 <==> nat_of(a@) > nat_of(b@),
{
    if a.len() < b.len() {
        proof {
            lemma_canon_shorter_smaller(a@, b@);
        }
        return -1;
    }
    if b.len() < a.len() {
        proof {
            lemma_canon_shorter_smaller(b@, a@);
        }
        return 1;
    }
    let n: usize = a.len();
    let mut j: usize = n;
    while j > 0
        invariant
            j <= n,
            n == a@.len(),
            n == b@.len(),
            a@.subrange(j as int, n as int) =~= b@.subrange(j as int, n as int),
        decreases j,
    {
        let k = j - 1;
        if a[k] != b[k] {
            proof {
                lemma_nat_of_split(a@, k as int);
                lemma_nat_of_split(b@, k as int);
                lemma_nat_of_suffix(a@, k as int);
                lemma_nat_of_suffix(b@, k as int);
                assert(a@.subrange(k + 1, n as int) =~= b@.subrange(k + 1, n as int));
                lemma_nat_of_bound(a@.subrange(0, k as int));
                lemma_nat_of_bound(b@.subrange(0, k as int));
                let p = pow2(k as nat) as int;
                let ha = nat_of(a@.subrange(k as int, n as int)) as int;
                let hb = nat_of(b@.subrange(k as int, n as int)) as int;
                assert(ha != hb);
                assert(ha < hb ==> p * ha + p <= p * hb) by (nonlinear_arith)
                    requires
                        p > 0,
                ;
                assert(hb < ha ==> p * hb + p <= p * ha) by (nonlinear_arith)
                    requires
                        p > 0,
                ;
            }
            if a[k] {
                return 1;
            } else {
                return -1;
            }
        }
        proof {
            assert(a@.subrange(k as int, n as int) =~= b@.subrange(k as int, n as int)) by {
                assert(a@.subrange(k as int, n as int) =~= a@.subrange(j as int, n as int).insert(
                    0,
                    a@[k as int],
                ));
                assert(b@.subrange(k as int, n as int) =~= b@.subrange(j as int, n as int).insert(
                    0,
                    b@[k as int],
                ));
            }
        }
        j = k;
    }
    proof {
        assert(a@.subrange(0, n as int) =~= b@.subrange(0, n as int));
        assert(a@ =~= a@.subrange(0, n as int));
        assert(b@ =~= b@.subrange(0, n as int));
    }
    0
}

/// Magnitude subtraction; requires `nat_of(b) <= nat_of(a)`.
fn sub_mag(a: &Vec<bool>, b: &Vec<bool>) -> (r: Vec<bool>)
    requires
        is_canon(a@),
        is_canon(b@),
        nat_of(b@) <= nat_of(a@),
    ensures
        is_canon(r@),
        nat_of(r@) == nat_of(a@) - nat_of(b@),
{
    proof {
        if a@.len() < b@.len() {
            lemma_canon_shorter_smaller(a@, b@);
        }
    }
    let n: usize = a.len();
    let mut r: Vec<bool> = Vec::new();
    let mut borrow: bool = false;
    let mut i: usize = 0;
    proof {
        lemma2_to64();
    }
    while i < n
        invariant
            i <= n,
            n == a@.len(),
            b@.len() <= n,
            r@.len() == i,
            nat_of(r@) + low(b@, i as int) == low(a@, i as int) + bit_nat(borrow) * pow2(i as nat),
        decreases n - i,
    {
        let av: bool = a[i];
        let bv: bool = if i < b.len() {
            b[i]
        } else {
            false
        };
        let d: i8 = (if av {
            1
        } else {
            0
        }) - (if bv {
            1
        } else {
            0
        }) - (if borrow {
            1
        } else {
            0
        });
        let bit: bool = d == 1 || d == -1;
        let newb: bool = d < 0;
        proof {
            lemma_nat_of_push(r@, bit);
            lemma_low_step(a@, i as int);
            lemma_low_step(b@, i as int);
            lemma_pow2_unfold((i + 1) as nat);
            let p = pow2(i as nat) as int;
            assert(bit_nat(bit) == bit_nat(av) - bit_nat(bv) - bit_nat(borrow) + 2 * bit_nat(newb));
            assert((bit_nat(bit) + bit_nat(bv) + bit_nat(borrow)) * p == (bit_nat(av) + 2 * bit_nat(
                newb,
            )) * p) by (nonlinear_arith)
                requires
                    bit_nat(bit) + bit_nat(bv) + bit_nat(borrow) == bit_nat(av) + 2 * bit_nat(newb),
            ;
            assert((bit_nat(bit) + bit_nat(bv) + bit_nat(borrow)) * p == bit_nat(bit) * p + bit_nat(
                bv,
            ) * p + bit_nat(borrow) * p) by (nonlinear_arith);
            assert((bit_nat(av) + 2 * bit_nat(newb)) * p == bit_nat(av) * p + bit_nat(newb) * (2
                * p)) by (nonlinear_arith);
        }
        r.push(bit);
        borrow = newb;
        i += 1;
    }
    proof {
        lemma_low_all(a@, n as int);
        lemma_low_all(b@, n as int);
        if borrow {
            lemma_nat_of_bound(r@);
            assert(false);
        }
    }
    trim(r)
}

/// Multiply by two: prepend a `false` bit.
fn shl1(a: &Vec<bool>) -> (r: Vec<bool>)
    ensures
        nat_of(r@) == 2 * nat_of(a@),
        r@.len() == a@.len() + 1,
        is_canon(a@) && a@.len() > 0 ==> is_canon(r@),
{
    let mut r = Vec::new();
    r.push(false);
    let mut i: usize = 0;
    while i < a.len()
        invariant
            i <= a@.len(),
            r@.len() == i + 1,
            r@[0] == false,
            r@.subrange(1, r@.len() as int) =~= a@.subrange(0, i as int),
        decreases a@.len() - i,
    {
        r.push(a[i]);
        proof {
            assert(r@.subrange(1, r@.len() as int) =~= a@.subrange(0, i as int).push(a@[i as int]));
            assert(a@.subrange(0, i + 1) =~= a@.subrange(0, i as int).push(a@[i as int]));
        }
        i += 1;
    }
    proof {
        assert(a@.subrange(0, a@.len() as int) =~= a@);
        assert(nat_of(r@) == bit_nat(r@[0]) + 2 * nat_of(r@.subrange(1, r@.len() as int)));
    }
    r
}

/// Copy a bit vector.
fn copy_bits(a: &Vec<bool>) -> (r: Vec<bool>)
    ensures
        r@ == a@,
{
    let mut r: Vec<bool> = Vec::new();
    let mut i: usize = 0;
    while i < a.len()
        invariant
            i <= a@.len(),
            r@ =~= a@.subrange(0, i as int),
        decreases a@.len() - i,
    {
        r.push(a[i]);
        i += 1;
    }
    proof {
        assert(a@.subrange(0, a@.len() as int) =~= a@);
    }
    r
}

/// Magnitude multiplication by shift-and-add.
fn mul_mag(a: &Vec<bool>, b: &Vec<bool>) -> (r: Vec<bool>)
    requires
        is_canon(a@),
        is_canon(b@),
    ensures
        is_canon(r@),
        nat_of(r@) == nat_of(a@) * nat_of(b@),
{
    let mut r: Vec<bool> = Vec::new();
    let mut sh: Vec<bool> = copy_bits(a);
    let mut i: usize = 0;
    proof {
        lemma2_to64();
        assert(b@.subrange(0, 0) =~= Seq::<bool>::empty());
        assert(nat_of(Seq::<bool>::empty()) == 0);
        assert(low(b@, 0) == 0);
        assert(nat_of(a@) * low(b@, 0) == 0) by (nonlinear_arith)
            requires
                low(b@, 0) == 0,
        ;
    }
    while i < b.len()
        invariant
            i <= b@.len(),
            nat_of(sh@) == nat_of(a@) * pow2(i as nat),
            nat_of(r@) == nat_of(a@) * low(b@, i as int),
            is_canon(r@),
        decreases b@.len() - i,
    {
        if b[i] {
            let r2 = add_mag(&r, &sh);
            r = r2;
        }
        let sh2 = shl1(&sh);
        sh = sh2;
        proof {
            lemma_low_step(b@, i as int);
            lemma_pow2_unfold((i + 1) as nat);
            let na = nat_of(a@) as int;
            let p = pow2(i as nat) as int;
            let l = low(b@, i as int) as int;
            if b@[i as int] {
                assert(na * (l + p) == na * l + na * p) by (nonlinear_arith);
            }
            assert(2 * (na * p) == na * (2 * p)) by (nonlinear_arith);
        }
        i += 1;
    }
    proof {
        lemma_low_all(b@, b@.len() as int);
    }
    r
}

/// Magnitude division with remainder by schoolbook long division.
fn divmod_mag(a: &Vec<bool>, b: &Vec<bool>) -> (qr: (Vec<bool>, Vec<bool>))
    requires
        is_canon(a@),
        is_canon(b@),
        nat_of(b@) > 0,
    ensures
        is_canon(qr.0@),
        is_canon(qr.1@),
        nat_of(a@) == nat_of(qr.0@) * nat_of(b@) + nat_of(qr.1@),
        nat_of(qr.1@) < nat_of(b@),
{
    let n: usize = a.len();
    let mut q: Vec<bool> = Vec::new();
    let mut k: usize = 0;
    while k < n
        invariant
            k <= n,
            q@.len() == k,
            forall|j: int| 0 <= j < k ==> q@[j] == false,
        decreases n - k,
    {
        q.push(false);
        k += 1;
    }
    let mut rem: Vec<bool> = Vec::new();
    let mut i: usize = n;
    proof {
        assert(a@.subrange(n as int, n as int) =~= Seq::<bool>::empty());
        assert(q@.subrange(n as int, n as int) =~= Seq::<bool>::empty());
        assert(nat_of(Seq::<bool>::empty()) == 0);
    }
    while i > 0
        invariant
            i <= n,
            n == a@.len(),
            q@.len() == n,
            is_canon(rem@),
            is_canon(b@),
            nat_of(b@) > 0,
            forall|j: int| 0 <= j < i ==> q@[j] == false,
            nat_of(a@.subrange(i as int, n as int)) == nat_of(q@.subrange(i as int, n as int))
                * nat_of(b@) + nat_of(rem@),
            nat_of(rem@) < nat_of(b@),
        decreases i,
    {
        let k = i - 1;
        let ghost old_q = q@;
        let ghost old_rem = rem@;
        // rem := 2*rem + a[k]
        let mut rem2: Vec<bool> = Vec::new();
        rem2.push(a[k]);
        let mut t: usize = 0;
        while t < rem.len()
            invariant
                t <= rem@.len(),
                rem2@.len() == t + 1,
                rem2@[0] == a@[k as int],
                rem2@.subrange(1, rem2@.len() as int) =~= rem@.subrange(0, t as int),
            decreases rem@.len() - t,
        {
            rem2.push(rem[t]);
            proof {
                assert(rem2@.subrange(1, rem2@.len() as int) =~= rem@.subrange(0, t as int).push(
                    rem@[t as int],
                ));
                assert(rem@.subrange(0, t + 1) =~= rem@.subrange(0, t as int).push(rem@[t as int]));
            }
            t += 1;
        }
        proof {
            assert(rem@.subrange(0, rem@.len() as int) =~= rem@);
            assert(nat_of(rem2@) == bit_nat(rem2@[0]) + 2 * nat_of(
                rem2@.subrange(1, rem2@.len() as int),
            ));
        }
        let mut rem2 = trim(rem2);
        // if rem2 >= b { rem2 -= b; q[k] = true; }
        let c = mag_cmp(&rem2, b);
        if c >= 0 {
            let rem3 = sub_mag(&rem2, b);
            rem2 = rem3;
            q.set(k, true);
        }
        rem = rem2;
        proof {
            lemma_nat_of_suffix(a@, k as int);
            lemma_nat_of_suffix(q@, k as int);
            assert(q@.subrange(k + 1, n as int) =~= old_q.subrange(k + 1, n as int));
            let hb = nat_of(b@) as int;
            let qa = nat_of(old_q.subrange(i as int, n as int)) as int;
            let ra = nat_of(old_rem) as int;
            let bitk = bit_nat(a@[k as int]) as int;
            // value of the processed prefix of a:
            // a_hi(k) == 2*a_hi(i) + a[k] == 2*(qa*b + ra) + a[k]
            assert(2 * (qa * hb + ra) == (2 * qa) * hb + 2 * ra) by (nonlinear_arith);
            if c >= 0 {
                // q_hi(k) == 2*qa + 1, rem == 2*ra + a[k] - b
                assert((2 * qa + 1) * hb == (2 * qa) * hb + hb) by (nonlinear_arith);
            }
        }
        i = k;
    }
    proof {
        assert(a@.subrange(0, n as int) =~= a@);
        assert(q@.subrange(0, n as int) =~= q@);
    }
    let qt = trim(q);
    (qt, rem)
}

// ---------------------------------------------------------------------------
// The signed arbitrary-precision integer.
// ---------------------------------------------------------------------------

/// Signed arbitrary-precision integer in sign-magnitude form; the magnitude
/// is a canonical least-significant-first bit vector and zero is never
/// negative.  Its mathematical value is the view `@ : int`.
#[derive(Debug)]
pub struct BigInt {
    pub(crate) negative: bool,
    pub(crate) bits: Vec<bool>,
}

impl View for BigInt {
    type V = int;

    closed spec fn view(&self) -> int {
        if self.negative {
            -(nat_of(self.bits@) as int)
        } else {
            nat_of(self.bits@) as int
        }
    }
}

/// Canonical least-significant-first bits of a natural number.
pub open spec fn bits_of(m: nat) -> Seq<bool>
    decreases m,
{
    if m == 0 {
        Seq::empty()
    } else {
        seq![m % 2 == 1] + bits_of(m / 2)
    }
}

/// A canonical bit sequence is the canonical decomposition of its value.
pub proof fn lemma_canon_bits(s: Seq<bool>)
    requires
        is_canon(s),
    ensures
        s == bits_of(nat_of(s)),
    decreases s.len(),
{
    if s.len() == 0 {
        assert(s =~= bits_of(0));
    } else {
        let rest = s.subrange(1, s.len() as int);
        assert(is_canon(rest));
        lemma_canon_bits(rest);
        lemma_canon_zero(s);
        let m = nat_of(s) as int;
        let r0 = nat_of(rest) as int;
        let b0 = bit_nat(s[0]) as int;
        assert(m == r0 * 2 + b0) by {
            assert(2 * r0 == r0 * 2);
        }
        lemma_fundamental_div_mod_converse(m, 2, r0, b0);
        assert(bits_of(nat_of(s)) == seq![(m % 2) == 1] + bits_of((m / 2) as nat));
        assert((m % 2 == 1) == s[0]);
        assert(s =~= seq![s[0]] + rest);
    }
}

/// Relation between the view of a well-formed integer and its bits.
pub(crate) proof fn lemma_view_bits(x: &BigInt)
    requires
        x.wf(),
    ensures
        x@ >= 0 ==> x@ == nat_of(x.bits@) as int,
        x@ < 0 ==> x@ == -(nat_of(x.bits@) as int),
        vstd::math::abs(x@) == nat_of(x.bits@),
        is_canon(x.bits@),
        (x@ == 0) <==> (x.bits@.len() == 0),
{
    lemma_canon_zero(x.bits@);
}

impl BigInt {
    /// Structural invariant: canonical magnitude and no negative zero.
    pub closed spec fn wf(&self) -> bool {
        is_canon(self.bits@) && (self.negative ==> self.bits@.len() > 0)
    }

    /// The zero integer.
    pub fn zero() -> (r: Self)
        ensures
            r.wf(),
            r@ == 0,
    {
        BigInt { negative: false, bits: Vec::new() }
    }

    /// The integer one.
    pub fn one() -> (r: Self)
        ensures
            r.wf(),
            r@ == 1,
    {
        let mut bits: Vec<bool> = Vec::new();
        bits.push(true);
        proof {
            assert(bits@.subrange(1, 1) =~= Seq::<bool>::empty());
            assert(nat_of(Seq::<bool>::empty()) == 0);
        }
        BigInt { negative: false, bits }
    }

    /// Build the integer of a machine word.
    pub fn from_u64(x: u64) -> (r: Self)
        ensures
            r.wf(),
            r@ == x as int,
    {
        let mut bits: Vec<bool> = Vec::new();
        let mut v: u64 = x;
        proof {
            lemma2_to64();
            assert(nat_of(Seq::<bool>::empty()) == 0);
        }
        while v > 0
            invariant
                nat_of(bits@) + (v as nat) * pow2(bits@.len()) == x as nat,
            decreases v,
        {
            let b: bool = v % 2 == 1;
            proof {
                lemma_nat_of_push(bits@, b);
                lemma_pow2_unfold((bits@.len() + 1) as nat);
                let p = pow2(bits@.len()) as int;
                let vv = v as int;
                assert(vv == 2 * (vv / 2) + vv % 2);
                assert((vv / 2) * (2 * p) + (vv % 2) * p == vv * p) by (nonlinear_arith)
                    requires
                        vv == 2 * (vv / 2) + vv % 2,
                ;
            }
            bits.push(b);
            v = v / 2;
        }
        proof {
            let vv = v as int;
            let p = pow2(bits@.len()) as int;
            assert(vv * p == 0) by (nonlinear_arith)
                requires
                    vv == 0,
            ;
        }
        let bits = trim(bits);
        BigInt { negative: false, bits }
    }

    /// Copy of the integer.
    pub fn duplicate(&self) -> (r: Self)
        ensures
            r@ == self@,
            self.wf() ==> r.wf(),
    {
        BigInt { negative: self.negative, bits: copy_bits(&self.bits) }
    }

    /// Absolute value.
    pub fn abs(&self) -> (r: Self)
        requires
            self.wf(),
        ensures
            r.wf(),
            r@ == vstd::math::abs(self@),
    {
        BigInt { negative: false, bits: copy_bits(&self.bits) }
    }

    /// True exactly of the integer zero.
    pub fn is_zero(&self) -> (b: bool)
        requires
            self.wf(),
        ensures
            b == (self@ == 0),
    {
        proof {
            lemma_canon_zero(self.bits@);
        }
        self.bits.len() == 0
    }

    /// True exactly of the integer one.
    pub fn is_one(&self) -> (b: bool)
        requires
            self.wf(),
        ensures
            b == (self@ == 1),
    {
        proof {
            let s = self.bits@;
            if s.len() == 1 {
                assert(s[0]);
                assert(s.subrange(1, 1) =~= Seq::<bool>::empty());
                assert(nat_of(Seq::<bool>::empty()) == 0);
                assert(nat_of(s) == 1);
            }
            if s.len() >= 2 {
                lemma_nat_of_canon_lower(s);
                lemma_pow2_unfold((s.len() - 1) as nat);
                lemma_pow2_pos((s.len() - 2) as nat);
            }
        }
        !self.negative && self.bits.len() == 1
    }

    /// True exactly of the odd integers.
    pub fn is_odd(&self) -> (b: bool)
        requires
            self.wf(),
        ensures
            b == (self@ % 2 != 0),
    {
        proof {
            let s = self.bits@;
            let n = nat_of(s) as int;
            if s.len() > 0 {
                lemma_mod_multiples_vanish(nat_of(s.subrange(1, s.len() as int)) as int,
                    bit_nat(s[0]) as int, 2);
                lemma_small_mod(bit_nat(s[0]), 2);
            }
            if self.negative {
                crate::arith::lemma_neg_mod(n, 2);
            }
        }
        self.bits.len() > 0 && self.bits[0]
    }

    /// True exactly of the strictly positive integers.
    pub fn is_positive(&self) -> (b: bool)
        requires
            self.wf(),
        ensures
            b == (self@ > 0),
    {
        proof {
            lemma_canon_zero(self.bits@);
        }
        !self.negative && self.bits.len() > 0
    }

    fn neg_of(&self) -> (r: Self)
        requires
            self.wf(),
        ensures
            r.wf(),
            r@ == -self@,
    {
        proof {
            lemma_canon_zero(self.bits@);
        }
        if self.bits.len() == 0 {
            BigInt { negative: false, bits: Vec::new() }
        } else {
            BigInt { negative: !self.negative, bits: copy_bits(&self.bits) }
        }
    }

    /// Addition.
    pub fn add(self, rhs: BigInt) -> (r: BigInt)
        requires
            self.wf(),
            rhs.wf(),
        ensures
            r.wf(),
            r@ == self@ + rhs@,
    {
        if self.negative == rhs.negative {
            let bits = add_mag(&self.bits, &rhs.bits);
            proof {
                lemma_canon_zero(self.bits@);
                lemma_canon_zero(bits@);
            }
            BigInt { negative: self.negative, bits }
        } else {
            let c = mag_cmp(&self.bits, &rhs.bits);
            if c == 0 {
                BigInt { negative: false, bits: Vec::new() }
            } else if c > 0 {
                let bits = sub_mag(&self.bits, &rhs.bits);
                proof {
                    lemma_canon_zero(bits@);
                }
                BigInt { negative: self.negative, bits }
            } else {
                let bits = sub_mag(&rhs.bits, &self.bits);
                proof {
                    lemma_canon_zero(bits@);
                }
                BigInt { negative: rhs.negative, bits }
            }
        }
    }

    /// Subtraction.
    pub fn sub(self, other: &Self) -> (r: Self)
        requires
            self.wf(),
            other.wf(),
        ensures
            r.wf(),
            r@ == self@ - other@,
    {
        let n = other.neg_of();
        self.add(n)
    }

    /// Multiplication.
    pub fn mul(self, rhs: &BigInt) -> (r: BigInt)
        requires
            self.wf(),
            rhs.wf(),
        ensures
            r.wf(),
            r@ == self@ * rhs@,
    {
        let bits = mul_mag(&self.bits, &rhs.bits);
        let neg = self.negative != rhs.negative && bits.len() > 0;
        proof {
            lemma_canon_zero(bits@);
            lemma_canon_zero(self.bits@);
            lemma_canon_zero(rhs.bits@);
            let a = nat_of(self.bits@) as int;
            let b = nat_of(rhs.bits@) as int;
            assert(a * b == 0 ==> a == 0 || b == 0) by (nonlinear_arith);
            assert((-a) * b == -(a * b)) by (nonlinear_arith);
            assert(a * (-b) == -(a * b)) by (nonlinear_arith);
            assert((-a) * (-b) == a * b) by (nonlinear_arith);
        }
        BigInt { negative: neg, bits }
    }

    /// Truncating division (quotient rounded towards zero).
    pub fn div(self, other: &Self) -> (r: Self)
        requires
            self.wf(),
            other.wf(),
            other@ != 0,
        ensures
            r.wf(),
            r@ == crate::arith::trunc_div(self@, other@),
    {
        proof {
            lemma_canon_zero(other.bits@);
        }
        let (q, rem) = divmod_mag(&self.bits, &other.bits);
        let neg = self.negative != other.negative && q.len() > 0;
        proof {
            lemma_canon_zero(q@);
            let a = nat_of(self.bits@) as int;
            let b = nat_of(other.bits@) as int;
            let qq = nat_of(q@) as int;
            let rr = nat_of(rem@) as int;
            lemma_fundamental_div_mod_converse(a, b, qq, rr);
            assert(vstd::math::abs(self@) == a);
            assert(vstd::math::abs(other@) == b);
        }
        BigInt { negative: neg, bits: q }
    }

    /// Power with a non-negative integer exponent.
    pub fn pow(self, other: &Self) -> (r: Self)
        requires
            self.wf(),
            other.wf(),
            other@ >= 0,
        ensures
            r.wf(),
            r@ == pow(self@, other@ as nat),
    {
        let ghost e = other.bits@;
        let n = other.bits.len();
        let mut result = BigInt::one();
        let mut j: usize = n;
        proof {
            assert(e.subrange(n as int, n as int) =~= Seq::<bool>::empty());
            assert(nat_of(Seq::<bool>::empty()) == 0);
            vstd::arithmetic::power::lemma_pow0(self@);
        }
        while j > 0
            invariant
                j <= n,
                n == e.len(),
                e == other.bits@,
                self.wf(),
                result.wf(),
                result@ == pow(self@, nat_of(e.subrange(j as int, n as int))),
            decreases j,
        {
            let k = j - 1;
            let ghost mid = nat_of(e.subrange(j as int, n as int));
            let r2 = result.duplicate();
            result = result.mul(&r2);
            if other.bits[k] {
                result = result.mul(&self);
            }
            proof {
                lemma_nat_of_suffix(e, k as int);
                vstd::arithmetic::power::lemma_pow_adds(self@, mid, mid);
                if e[k as int] {
                    vstd::arithmetic::power::lemma_pow_adds(self@, mid + mid, 1);
                    vstd::arithmetic::power::lemma_pow1(self@);
                }
            }
            j = k;
        }
        proof {
            assert(e.subrange(0, n as int) =~= e);
            if !other.negative {
                assert(other@ == nat_of(e));
            } else {
                assert(other@ >= 0);
                lemma_canon_zero(e);
            }
        }
        result
    }

    /// Residue of the integer modulo a small positive modulus,
    /// reduced to `[0, y)`.
    pub fn modulo(self, y: &u32) -> (r: Self)
        requires
            self.wf(),
            *y > 0,
        ensures
            r.wf(),
            r@ == self@ % (*y as int),
    {
        let n = self.bits.len();
        let yy: u64 = *y as u64;
        let mut m: u64 = 0;
        let mut i: usize = n;
        proof {
            assert(self.bits@.subrange(n as int, n as int) =~= Seq::<bool>::empty());
            assert(nat_of(Seq::<bool>::empty()) == 0);
            lemma_small_mod(0, yy as nat);
        }
        while i > 0
            invariant
                i <= n,
                n == self.bits@.len(),
                yy == *y as u64,
                yy > 0,
                m < yy,
                m as int == (nat_of(self.bits@.subrange(i as int, n as int)) as int) % (yy as int),
            decreases i,
        {
            let k = i - 1;
            let b: u64 = if self.bits[k] {
                1
            } else {
                0
            };
            let ghost hi = nat_of(self.bits@.subrange(i as int, n as int)) as int;
            let m2: u64 = (2 * m + b) % yy;
            proof {
                lemma_nat_of_suffix(self.bits@, k as int);
                let bb = b as int;
                let yi = yy as int;
                lemma_mod_bound(2 * hi + bb, yi);
                assert((2 * (hi % yi) + bb) % yi == (2 * hi + bb) % yi) by {
                    lemma_mul_mod_noop_right(2, hi, yi);
                    lemma_add_mod_noop(2 * (hi % yi), bb, yi);
                    lemma_add_mod_noop(2 * hi, bb, yi);
                }
            }
            m = m2;
            i = k;
        }
        proof {
            assert(self.bits@.subrange(0, n as int) =~= self.bits@);
            if self.negative {
                crate::arith::lemma_neg_mod(nat_of(self.bits@) as int, yy as int);
            }
        }
        let res: u64 = if self.negative && m != 0 {
            yy - m
        } else {
            m
        };
        BigInt::from_u64(res)
    }

    /// The magnitude of the integer as bits, least-significant first,
    /// with no trailing `false` (zero gives the empty vector).
    pub fn to_bits(self) -> (r: Vec<bool>)
        requires
            self.wf(),
        ensures
            is_canon(r@),
            nat_of(r@) == vstd::math::abs(self@),
            r@.len() > 0 <==> self@ != 0,
    {
        proof {
            lemma_canon_zero(self.bits@);
        }
        self.bits
    }
}

} // verus!
