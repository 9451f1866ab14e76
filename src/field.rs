//! The prime field `F_p` with `p = 7 * 2^20 + 1`, whose multiplicative group
//! has a subgroup of every power-of-two order up to `2^20`.
use vstd::prelude::*;
use vstd::arithmetic::div_mod::*;
use vstd::arithmetic::mul::*;
use vstd::arithmetic::power2::*;

verus! {

/// The field's modulus.
pub const P: u64 = 7340033;

/// Sum in the field.
pub open spec fn fadd(a: int, b: int) -> int {
    (a + b) % (P as int)
}

/// Difference in the field.
pub open spec fn fsub(a: int, b: int) -> int {
    (a - b) % (P as int)
}

/// Product in the field.
pub open spec fn fmul(a: int, b: int) -> int {
    (a * b) % (P as int)
}

/// `a` raised to the power `e` by repeated multiplication; `a^0 = 1`.
pub open spec fn fpow(a: int, e: nat) -> int
    decreases e,
{
    if e == 0 {
        1
    } else {
        fmul(a, fpow(a, (e - 1) as nat))
    }
}

pub proof fn lemma_fpow_range(a: int, e: nat)
    ensures
        0 <= fpow(a, e) < P,
    decreases e,
{
    if e > 0 {
        lemma_fpow_range(a, (e - 1) as nat);
    }
}

pub proof fn lemma_fmul_comm(a: int, b: int)
    ensures
        fmul(a, b) == fmul(b, a),
{
    lemma_mul_is_commutative(a, b);
}

pub proof fn lemma_fmul_assoc(a: int, b: int, c: int)
    ensures
        fmul(fmul(a, b), c) == fmul(a, fmul(b, c)),
{
    let p = P as int;
    lemma_mul_mod_noop_left(a * b, c, p);
    lemma_mul_mod_noop_right(a, b * c, p);
    lemma_mul_is_associative(a, b, c);
}

pub proof fn lemma_fadd_comm(a: int, b: int)
    ensures
        fadd(a, b) == fadd(b, a),
{
}

pub proof fn lemma_fadd_assoc(a: int, b: int, c: int)
    ensures
        fadd(fadd(a, b), c) == fadd(a, fadd(b, c)),
{
    let p = P as int;
    lemma_add_mod_noop(a + b, c, p);
    lemma_add_mod_noop(a, b + c, p);
    lemma_mod_twice(a + b, p);
    lemma_mod_twice(b + c, p);
    lemma_mod_twice(a, p);
    lemma_mod_twice(c, p);
    lemma_add_mod_noop(a, b, p);
    lemma_add_mod_noop(b, c, p);
    lemma_add_mod_noop(a % p + b % p, c, p);
    lemma_add_mod_noop(a, b % p + c % p, p);
    lemma_add_mod_noop_right(a, b + c, p);
    lemma_add_mod_noop_right(c, a + b, p);
}

pub proof fn lemma_fadd_zero(a: int)
    requires
        0 <= a < P,
    ensures
        fadd(a, 0) == a,
        fadd(0, a) == a,
{
    lemma_small_mod(a as nat, P as nat);
}

/// Multiplication distributes over addition.
pub proof fn lemma_fmul_fadd(c: int, a: int, b: int)
    ensures
        fmul(c, fadd(a, b)) == fadd(fmul(c, a), fmul(c, b)),
{
    let p = P as int;
    lemma_mul_mod_noop_right(c, a + b, p);
    lemma_mul_is_distributive_add(c, a, b);
    lemma_add_mod_noop(c * a, c * b, p);
}

/// Adding `(-1) * t` subtracts `t`.
pub proof fn lemma_fadd_neg(a: int, t: int)
    ensures
        fadd(a, fmul(P - 1, t)) == fsub(a, t),
{
    let p = P as int;
    lemma_add_mod_noop_right(a, (p - 1) * t, p);
    lemma_mul_is_distributive_sub_other_way(t, p, 1);
    lemma_mul_is_commutative(p, t);
    lemma_mod_multiples_vanish(t, a - t, p);
    assert(a + (p - 1) * t == (a - t) + t * p) by (nonlinear_arith);
    lemma_mul_is_commutative(t, p);
}

pub proof fn lemma_fmul_one(a: int)
    requires
        0 <= a < P,
    ensures
        fmul(a, 1) == a,
        fmul(1, a) == a,
{
    lemma_small_mod(a as nat, P as nat);
}

/// Reducing either factor first does not change a product.
pub proof fn lemma_fmul_mod(a: int, b: int)
    ensures
        fmul(a % (P as int), b) == fmul(a, b),
        fmul(a, b % (P as int)) == fmul(a, b),
{
    lemma_mul_mod_noop_left(a, b, P as int);
    lemma_mul_mod_noop_right(a, b, P as int);
}

pub proof fn lemma_fpow_add(a: int, e1: nat, e2: nat)
    ensures
        fpow(a, e1 + e2) == fmul(fpow(a, e1), fpow(a, e2)),
    decreases e1,
{
    if e1 == 0 {
        lemma_fpow_range(a, e2);
        lemma_fmul_one(fpow(a, e2));
    } else {
        lemma_fpow_add(a, (e1 - 1) as nat, e2);
        assert(fpow(a, e1 + e2) == fmul(a, fpow(a, (e1 - 1 + e2) as nat)));
        lemma_fmul_assoc(a, fpow(a, (e1 - 1) as nat), fpow(a, e2));
    }
}

pub proof fn lemma_fpow_of_fmul(a: int, b: int, e: nat)
    ensures
        fpow(fmul(a, b), e) == fmul(fpow(a, e), fpow(b, e)),
    decreases e,
{
    if e > 0 {
        let e1 = (e - 1) as nat;
        lemma_fpow_of_fmul(a, b, e1);
        let x = fpow(a, e1);
        let y = fpow(b, e1);
        // (ab)(xy) == (ax)(by)
        lemma_fmul_assoc(fmul(a, b), x, y);
        lemma_fmul_assoc(a, b, x);
        lemma_fmul_comm(b, x);
        lemma_fmul_assoc(a, x, b);
        lemma_fmul_assoc(fmul(a, x), b, y);
    }
}

pub proof fn lemma_fpow_mul(a: int, e1: nat, e2: nat)
    ensures
        fpow(a, e1 * e2) == fpow(fpow(a, e1), e2),
    decreases e2,
{
    if e2 == 0 {
        assert(e1 * e2 == 0) by (nonlinear_arith) requires e2 == 0;
    } else {
        lemma_fpow_mul(a, e1, (e2 - 1) as nat);
        assert(e1 * e2 == e1 + e1 * (e2 - 1)) by (nonlinear_arith);
        lemma_fpow_add(a, e1, (e1 * (e2 - 1)) as nat);
    }
}

pub proof fn lemma_fpow_one(e: nat)
    ensures
        fpow(1, e) == 1,
    decreases e,
{
    if e > 0 {
        lemma_fpow_one((e - 1) as nat);
    }
}

pub proof fn lemma_fpow_small(a: int)
    requires
        0 <= a < P,
    ensures
        fpow(a, 0) == 1,
        fpow(a, 1) == a,
{
    reveal_with_fuel(fpow, 2);
    lemma_fmul_one(a);
}

/// A power of zero with a positive exponent is zero.
pub proof fn lemma_fpow_zero(e: nat)
    requires
        e > 0,
    ensures
        fpow(0, e) == 0,
{
}

/// `(-1)^e = -1` for odd `e`.
pub proof fn lemma_fpow_neg_one_odd(e: nat)
    requires
        e % 2 == 1,
    ensures
        fpow(P - 1, e) == P - 1,
    decreases e,
{
    if e == 1 {
        lemma_fpow_small(P - 1);
    } else {
        let e2 = (e - 2) as nat;
        lemma_fpow_neg_one_odd(e2);
        lemma_fpow_add(P - 1, 2, e2);
        reveal_with_fuel(fpow, 3);
        assert(fmul(P - 1, P - 1) == 1);
        lemma_fmul_one(1);
        assert(fpow(P - 1, 2) == 1);
        lemma_fmul_one(P - 1);
        lemma_fmul_comm(1, P - 1);
    }
}

pub proof fn lemma_fpow_square(a: int, e: nat, x: int)
    requires
        fpow(a, e) == x,
    ensures
        fpow(a, 2 * e) == fmul(x, x),
{
    lemma_fpow_add(a, e, e);
}

proof fn lemma_fpow_three_seven()
    ensures
        fpow(3, 7) == 2187,
{
    assert(fpow(3, 1) == 3) by { reveal_with_fuel(fpow, 2); }
    assert(fpow(3, 2) == 9);
    assert(fpow(3, 3) == 27);
    assert(fpow(3, 4) == 81);
    assert(fpow(3, 5) == 243);
    assert(fpow(3, 6) == 729);
    assert(fpow(3, 7) == 2187);
}

/// `3^((p - 1) / 2) = -1`: three is a quadratic non-residue, so its powers
/// reach every root of unity of power-of-two order.
pub proof fn lemma_three_non_residue()
    ensures
        fpow(3, 3670016) == P - 1,
        fpow(3, 7340032) == 1,
{
    lemma_fpow_three_seven();
    assert(fpow(3, 14) == 4782969) by {
        lemma_fpow_square(3, 7, 2187);
    }
    assert(fpow(3, 28) == 1503366) by {
        lemma_fpow_square(3, 14, 4782969);
    }
    assert(fpow(3, 56) == 3068761) by {
        lemma_fpow_square(3, 28, 1503366);
    }
    assert(fpow(3, 112) == 2375989) by {
        lemma_fpow_square(3, 56, 3068761);
    }
    assert(fpow(3, 224) == 1587359) by {
        lemma_fpow_square(3, 112, 2375989);
    }
    assert(fpow(3, 448) == 46542) by {
        lemma_fpow_square(3, 224, 1587359);
    }
    assert(fpow(3, 896) == 848029) by {
        lemma_fpow_square(3, 448, 46542);
    }
    assert(fpow(3, 1792) == 6111633) by {
        lemma_fpow_square(3, 896, 848029);
    }
    assert(fpow(3, 3584) == 2575860) by {
        lemma_fpow_square(3, 1792, 6111633);
    }
    assert(fpow(3, 7168) == 2549118) by {
        lemma_fpow_square(3, 3584, 2575860);
    }
    assert(fpow(3, 14336) == 3483618) by {
        lemma_fpow_square(3, 7168, 2549118);
    }
    assert(fpow(3, 28672) == 2189605) by {
        lemma_fpow_square(3, 14336, 3483618);
    }
    assert(fpow(3, 57344) == 7301085) by {
        lemma_fpow_square(3, 28672, 2189605);
    }
    assert(fpow(3, 114688) == 4899906) by {
        lemma_fpow_square(3, 57344, 7301085);
    }
    assert(fpow(3, 229376) == 7026628) by {
        lemma_fpow_square(3, 114688, 4899906);
    }
    assert(fpow(3, 458752) == 5712452) by {
        lemma_fpow_square(3, 229376, 7026628);
    }
    assert(fpow(3, 917504) == 2001861) by {
        lemma_fpow_square(3, 458752, 5712452);
    }
    assert(fpow(3, 1835008) == 2306278) by {
        lemma_fpow_square(3, 917504, 2001861);
    }
    assert(fpow(3, 3670016) == 7340032) by {
        lemma_fpow_square(3, 1835008, 2306278);
    }
    assert(fpow(3, 7340032) == 1) by {
        lemma_fpow_square(3, 3670016, 7340032);
    }
}

/// Greatest common divisor, by Euclid's recursion.
pub open spec fn gcd(a: nat, b: nat) -> nat
    decreases b,
{
    if b == 0 {
        a
    } else {
        gcd(b, a % b)
    }
}

pub proof fn lemma_gcd_divides(a: nat, b: nat)
    requires
        a > 0 || b > 0,
    ensures
        gcd(a, b) > 0,
        a % gcd(a, b) == 0,
        b % gcd(a, b) == 0,
    decreases b,
{
    if b > 0 {
        let r = a % b;
        lemma_gcd_divides(b, r);
        let g = gcd(b, r) as int;
        let (ai, bi, ri) = (a as int, b as int, r as int);
        lemma_fundamental_div_mod(ai, bi);
        lemma_fundamental_div_mod(bi, g);
        lemma_fundamental_div_mod(ri, g);
        let k = (ai / bi) * (bi / g) + ri / g;
        assert(ai == k * g) by (nonlinear_arith)
            requires
                ai == bi * (ai / bi) + ri,
                bi == g * (bi / g),
                ri == g * (ri / g),
                k == (ai / bi) * (bi / g) + ri / g,
        ;
        lemma_mod_multiples_basic(k, g);
    }
}

/// The modulus is prime.
pub proof fn lemma_p_prime(d: int)
    requires
        1 < d < P,
    ensures
        (P as int) % d != 0,
{
    let du = d as u32;
    assert(7340033u32 % du != 0u32) by (bit_vector)
        requires
            1u32 < du && du < 7340033u32,
    ;
}

/// Every nonzero residue is coprime to the modulus.
pub proof fn lemma_gcd_p(a: nat)
    requires
        0 < a < P,
    ensures
        gcd(P as nat, a) == 1,
{
    lemma_gcd_divides(P as nat, a);
    let g = gcd(P as nat, a);
    if g > 1 {
        if g > a {
            lemma_small_mod(a, g);
        }
        lemma_p_prime(g as int);
    }
}

/// One step of the extended Euclidean algorithm keeps `s * a = r (mod p)`.
pub proof fn lemma_euclid_step(a: int, r0: int, r1: int, s0: int, s1: int, q: int)
    requires
        fmul(s0, a) == r0 % (P as int),
        fmul(s1, a) == r1 % (P as int),
    ensures
        fmul(fsub(s0, fmul(q, s1)), a) == (r0 - q * r1) % (P as int),
{
    let p = P as int;
    let t = fmul(q, s1);
    lemma_mul_mod_noop_left(s0 - t, a, p);
    lemma_mul_is_distributive_sub_other_way(a, s0, t);
    lemma_sub_mod_noop(s0 * a, t * a, p);
    lemma_mul_mod_noop_left(q * s1, a, p);
    lemma_mul_is_associative(q, s1, a);
    lemma_mul_mod_noop_right(q, s1 * a, p);
    lemma_mul_mod_noop_right(q, r1, p);
    lemma_sub_mod_noop(r0, q * r1, p);
}

/// Whether `w` generates the subgroup of order `n`, for a power of two `n`:
/// `w^n = 1`, and (for `n >= 2`) `w^(n/2) = -1`, so no smaller power is one.
pub open spec fn is_primitive_root(w: int, n: nat) -> bool {
    &&& fpow(w, n) == 1
    &&& (n >= 2 ==> fpow(w, n / 2) == P - 1)
}

/// The root of unity that this field fixes for the subgroup of order `n`:
/// `3^((p - 1) / n)`.
pub open spec fn root_of_unity(n: nat) -> int {
    fpow(3, (7340032nat / n) as nat)
}

pub proof fn lemma_root_of_unity(k: nat)
    requires
        k <= 20,
    ensures
        is_primitive_root(root_of_unity(pow2(k)), pow2(k)),
{
    let n = pow2(k);
    let c = 7 * pow2((20 - k) as nat);
    lemma_pow2_adds((20 - k) as nat, k);
    lemma_pow2_pos(k);
    lemma2_to64();
    assert(7340032 == 7 * pow2(20));
    assert(7340032 == c * n) by (nonlinear_arith)
        requires
            7340032 == 7 * pow2(20),
            pow2(20) == pow2((20 - k) as nat) * n,
            c == 7 * pow2((20 - k) as nat),
    ;
    lemma_div_multiples_vanish(c as int, n as int);
    assert(7340032nat / n == c);
    lemma_three_non_residue();
    lemma_fpow_mul(3, c, n);
    if k >= 1 {
        lemma_pow2_adds(1, (k - 1) as nat);
        let h = pow2((k - 1) as nat);
        assert(n == 2 * h);
        assert(n / 2 == h);
        assert(c * h == 3670016) by (nonlinear_arith)
            requires
                7340032 == c * n,
                n == 2 * h,
        ;
        lemma_fpow_mul(3, c, h);
    }
}

/// The multiplicative inverse of `a` (for `a != 0`).
pub open spec fn finv(a: int) -> int {
    choose|b: int| 0 <= b < P && fmul(a, b) == 1
}

/// An element with `a * b = 1` is the inverse of `a`.
pub proof fn lemma_finv_unique(a: int, b: int)
    requires
        0 <= a < P,
        0 <= b < P,
        fmul(a, b) == 1,
    ensures
        finv(a) == b,
        fmul(a, finv(a)) == 1,
{
    let c = finv(a);
    assert(0 <= c < P && fmul(a, c) == 1);
    // c = c * (a * b) = (c * a) * b = b
    lemma_fmul_one(c);
    lemma_fmul_assoc(c, a, b);
    lemma_fmul_comm(c, a);
    lemma_fmul_one(b);
    lemma_fmul_comm(1, b);
}

/// Coefficients `(x, y)` with `x * a + y * b = gcd(a, b)`.
pub proof fn lemma_bezout(a: nat, b: nat) -> (r: (int, int))
    ensures
        r.0 * a + r.1 * b == gcd(a, b),
    decreases b,
{
    if b == 0 {
        (1, 0)
    } else {
        let (x, y) = lemma_bezout(b, a % b);
        let q = (a / b) as int;
        lemma_fundamental_div_mod(a as int, b as int);
        assert(y * a + (x - y * q) * b == x * b + y * (a % b)) by (nonlinear_arith)
            requires
                a == b * q + a % b,
        ;
        (y, x - y * q)
    }
}

/// Every nonzero element has an inverse.
pub proof fn lemma_finv_exists(a: int)
    requires
        0 < a < P,
    ensures
        0 <= finv(a) < P,
        fmul(a, finv(a)) == 1,
{
    lemma_gcd_p(a as nat);
    let (x, y) = lemma_bezout(P as nat, a as nat);
    let p = P as int;
    let b = y % p;
    lemma_mul_mod_noop_right(a, y, p);
    assert(a * y == 1 + (-x) * p) by (nonlinear_arith)
        requires
            x * p + y * a == 1,
    ;
    lemma_mod_multiples_vanish(-x, 1, p);
    lemma_small_mod(1, P as nat);
    lemma_mul_is_commutative(-x, p);
    lemma_finv_unique(a, b);
}

/// The inverse of a generator of the subgroup of order `n` generates it too.
pub proof fn lemma_finv_primitive(w: int, v: int, n: nat)
    requires
        0 <= v < P,
        fmul(w, v) == 1,
        is_primitive_root(w, n),
    ensures
        is_primitive_root(v, n),
{
    lemma_fpow_of_fmul(w, v, n);
    lemma_fpow_one(n);
    lemma_fpow_range(v, n);
    lemma_fmul_one(fpow(v, n));
    lemma_fmul_comm(1, fpow(v, n));
    if n >= 2 {
        let y = fpow(v, n / 2);
        lemma_fpow_of_fmul(w, v, n / 2);
        lemma_fpow_one(n / 2);
        lemma_fpow_range(v, n / 2);
        // y = ((-1) * (-1)) * y = (-1) * ((-1) * y) = -1
        assert(fmul(P - 1, P - 1) == 1);
        lemma_fmul_one(y);
        lemma_fmul_comm(1, y);
        lemma_fmul_assoc(P - 1, P - 1, y);
        lemma_fmul_one(P - 1);
    }
}

/// An element of the field, held as its canonical representative.
#[derive(Clone, Copy, Debug, PartialEq, Eq, Structural)]
pub struct Fp {
    v: u64,
}

impl View for Fp {
    type V = int;

    closed spec fn view(&self) -> int {
        self.v as int % (P as int)
    }
}

/// Every element's value lies in `[0, p)`.
pub broadcast proof fn lemma_fp_range(x: Fp)
    ensures
        0 <= #[trigger] x@ < P,
{
}

impl Fp {
    #[verifier::type_invariant]
    spec fn canonical(self) -> bool {
        self.v < P
    }

    /// The value of `x` as a field element (`x mod p`).
    pub fn from_int(x: u64) -> (r: Fp)
        ensures
            r@ == x as int % (P as int),
    {
        let r = Fp { v: x % P };
        proof {
            lemma_mod_twice(x as int, P as int);
        }
        r
    }

    /// The canonical representative of this element, in `[0, p)`.
    pub fn value(&self) -> (r: u64)
        ensures
            r as int == self@,
    {
        proof {
            use_type_invariant(self);
            lemma_small_mod(self.v as nat, P as nat);
        }
        self.v
    }

    pub fn is_zero(&self) -> (r: bool)
        ensures
            r == (self@ == 0),
    {
        proof {
            use_type_invariant(self);
            lemma_small_mod(self.v as nat, P as nat);
        }
        self.v == 0
    }

    pub fn add(self, o: Fp) -> (r: Fp)
        ensures
            r@ == fadd(self@, o@),
    {
        proof {
            use_type_invariant(&self);
            use_type_invariant(&o);
            lemma_small_mod(self.v as nat, P as nat);
            lemma_small_mod(o.v as nat, P as nat);
        }
        let s = self.v + o.v;
        Fp::from_int(s)
    }

    pub fn sub(self, o: Fp) -> (r: Fp)
        ensures
            r@ == fsub(self@, o@),
    {
        proof {
            use_type_invariant(&self);
            use_type_invariant(&o);
            lemma_small_mod(self.v as nat, P as nat);
            lemma_small_mod(o.v as nat, P as nat);
            lemma_mod_add_multiples_vanish(self.v as int - o.v as int, P as int);
        }
        let s = self.v + (P - o.v);
        Fp::from_int(s)
    }

    pub fn neg(self) -> (r: Fp)
        ensures
            r@ == fsub(0, self@),
    {
        Fp::from_int(0).sub(self)
    }

    pub fn mul(self, o: Fp) -> (r: Fp)
        ensures
            r@ == fmul(self@, o@),
    {
        proof {
            use_type_invariant(&self);
            use_type_invariant(&o);
            lemma_small_mod(self.v as nat, P as nat);
            lemma_small_mod(o.v as nat, P as nat);
            let (x, y) = (self.v as int, o.v as int);
            assert(x * y < 7340033 * 7340033) by (nonlinear_arith)
                requires
                    0 <= x < 7340033,
                    0 <= y < 7340033,
            ;
        }
        let s = self.v * o.v;
        Fp::from_int(s)
    }

    /// `self^e`, by repeated squaring.
    pub fn pow(self, e: usize) -> (r: Fp)
        ensures
            r@ == fpow(self@, e as nat),
    {
        let mut acc = Fp::from_int(1);
        let mut base = self;
        let mut k: usize = e;
        proof {
            lemma_fpow_range(self@, e as nat);
            lemma_fmul_one(fpow(self@, e as nat));
            lemma_fmul_comm(1, fpow(self@, e as nat));
        }
        while k > 0
            invariant
                fmul(acc@, fpow(base@, k as nat)) == fpow(self@, e as nat),
            decreases k,
        {
            proof {
                let b = base@;
                let h = (k / 2) as nat;
                lemma_fpow_add(b, (2 * h) as nat, (k % 2) as nat);
                assert(2 * h + k % 2 == k);
                lemma_fpow_mul(b, 2, h);
                assert(fpow(b, 1) == b) by {
                    reveal_with_fuel(fpow, 2);
                    lemma_fmul_one(b);
                }
                assert(fpow(b, 2) == fmul(b, b));
                assert(fpow(b, 0) == 1);
                lemma_fmul_comm(fpow(b, (2 * h) as nat), fpow(b, (k % 2) as nat));
                lemma_fmul_assoc(acc@, fpow(b, (k % 2) as nat), fpow(b, (2 * h) as nat));
                if k % 2 == 0 {
                    lemma_fmul_one(acc@);
                }
            }
            if k % 2 == 1 {
                acc = acc.mul(base);
            }
            base = base.mul(base);
            k = k / 2;
        }
        proof {
            lemma_fmul_one(acc@);
        }
        acc
    }

    /// The multiplicative inverse of a nonzero element, by the extended
    /// Euclidean algorithm on `(p, self)`.
    pub fn inverse(self) -> (r: Fp)
        requires
            self@ != 0,
        ensures
            fmul(self@, r@) == 1,
            r@ == finv(self@),
    {
        let a = self.value();
        let mut r0: u64 = P;
        let mut r1: u64 = a;
        let mut s0 = Fp::from_int(0);
        let mut s1 = Fp::from_int(1);
        proof {
            lemma_small_mod(a as nat, P as nat);
            lemma_fmul_one(a as int);
            lemma_fmul_comm(1, a as int);
        }
        while r1 != 0
            invariant
                0 < a < P,
                r0 > 0,
                gcd(r0 as nat, r1 as nat) == gcd(P as nat, a as nat),
                fmul(s0@, a as int) == r0 as int % (P as int),
                fmul(s1@, a as int) == r1 as int % (P as int),
            decreases r1,
        {
            let q = r0 / r1;
            let r2 = r0 % r1;
            proof {
                lemma_fundamental_div_mod(r0 as int, r1 as int);
                lemma_fmul_mod(q as int, s1@);
                lemma_euclid_step(a as int, r0 as int, r1 as int, s0@, s1@, q as int);
            }
            let s2 = s0.sub(Fp::from_int(q).mul(s1));
            r0 = r1;
            r1 = r2;
            s0 = s1;
            s1 = s2;
        }
        proof {
            lemma_gcd_p(a as nat);
            lemma_fmul_comm(s0@, a as int);
            lemma_finv_unique(self@, s0@);
        }
        s0
    }

    /// The generator that this field fixes for the subgroup of order `order`.
    /// It depends on `order` alone.
    pub fn get_generator(order: usize) -> (r: Fp)
        requires
            exists|k: nat| k <= 20 && pow2(k) == order as nat,
        ensures
            r@ == root_of_unity(order as nat),
            is_primitive_root(r@, order as nat),
    {
        let ghost k = choose|k: nat| k <= 20 && pow2(k) == order as nat;
        proof {
            lemma_root_of_unity(k);
            lemma_pow2_pos(k);
            lemma_fpow_range(3, (7340032nat / (order as nat)) as nat);
            lemma_small_mod(root_of_unity(order as nat) as nat, P as nat);
        }
        let e = (P - 1) / (order as u64);
        let r = Fp::from_int(3).pow(e as usize);
        r
    }
}

} // verus!
