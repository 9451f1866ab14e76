//! The radix-2 evaluation domain: a subgroup of power-of-two order of the
//! field's multiplicative group, with in-place forward and inverse
//! number-theoretic transforms over it and over its shifted copies.
use vstd::prelude::*;
use vstd::arithmetic::power2::*;
use vstd::arithmetic::mul::*;
use vstd::arithmetic::div_mod::*;
use crate::ntt::{ntt, evens, odds, dft, idft, scaled, in_field, lemma_ntt_is_dft};
use crate::field::{Fp, P, finv, lemma_finv_primitive, fadd, fsub, fmul, fpow, is_primitive_root, lemma_fpow_range, lemma_fmul_one, lemma_fmul_assoc, lemma_fpow_add, lemma_fmul_comm, lemma_fp_range, lemma_fpow_small, lemma_fpow_zero};

verus! {

broadcast use lemma_fp_range;

/// Whether `n` is a power of two that the field has a subgroup of.
pub open spec fn is_order(n: nat) -> bool {
    exists|k: nat| k <= 20 && pow2(k) == n
}

/// The values of a sequence of field elements.
pub open spec fn vals(s: Seq<Fp>) -> Seq<int> {
    s.map_values(|x: Fp| x@)
}

pub proof fn lemma_order_bound(n: nat)
    requires
        is_order(n),
    ensures
        1 <= n <= pow2(20),
        n < P,
        n as int % (P as int) == n,
{
    let k = choose|k: nat| k <= 20 && pow2(k) == n;
    lemma_pow2_pos(k);
    if k < 20 {
        lemma_pow2_strictly_increases(k, 20);
    }
    lemma2_to64();
    vstd::arithmetic::div_mod::lemma_small_mod(n, P as nat);
}

/// A generator of a subgroup is not zero.
pub proof fn lemma_root_nonzero(w: int, n: nat)
    requires
        is_order(n),
        is_primitive_root(w, n),
    ensures
        w != 0,
{
    lemma_order_bound(n);
    if w == 0 {
        lemma_fpow_zero(n);
    }
}

/// A subgroup of order `order`, generated by `omega`.
#[derive(Clone, Copy, Debug)]
pub struct Radix2Domain {
    order: usize,
    omega: Fp,
}

impl Radix2Domain {
    pub closed spec fn order_spec(&self) -> nat {
        self.order as nat
    }

    pub closed spec fn omega_spec(&self) -> int {
        self.omega@
    }

    /// `omega` generates the subgroup of order `order`.
    pub open spec fn wf(&self) -> bool {
        &&& is_order(self.order_spec())
        &&& is_primitive_root(self.omega_spec(), self.order_spec())
    }

    pub fn new(order: usize, omega: Fp) -> (r: Radix2Domain)
        requires
            is_order(order as nat),
            is_primitive_root(omega@, order as nat),
        ensures
            r.wf(),
            r.order_spec() == order,
            r.omega_spec() == omega@,
    {
        Radix2Domain { order, omega }
    }

    pub fn order(&self) -> (r: usize)
        ensures
            r == self.order_spec(),
    {
        self.order
    }

    pub fn omega(&self) -> (r: Fp)
        ensures
            r@ == self.omega_spec(),
    {
        self.omega
    }

    /// Replaces the coefficients in `a` by the polynomial's values at the
    /// subgroup's elements `omega^0, omega^1, ...`.
    pub fn fft(&self, a: &mut Vec<Fp>)
        requires
            self.wf(),
            old(a)@.len() == self.order_spec(),
        ensures
            final(a)@.len() == old(a)@.len(),
            vals(final(a)@) == dft(vals(old(a)@), self.omega_spec()),
    {
        _fft(a, self.omega);
    }

    /// Replaces the values in `a` at the subgroup's elements by the
    /// coefficients of the polynomial that takes them: the transform with
    /// `omega^-1`, divided by the order.
    pub fn ifft(&self, a: &mut Vec<Fp>)
        requires
            self.wf(),
            old(a)@.len() == self.order_spec(),
        ensures
            final(a)@.len() == old(a)@.len(),
            vals(final(a)@) == idft(vals(old(a)@), self.omega_spec()),
    {
        proof {
            lemma_root_nonzero(self.omega@, self.order as nat);
        }
        let omega_inv = self.omega.inverse();
        proof {
            lemma_finv_primitive(self.omega@, omega_inv@, self.order as nat);
        }
        let ghost y = vals(a@);
        _fft(a, omega_inv);
        let ghost d = vals(a@);
        proof {
            lemma_order_bound(self.order as nat);
        }
        let t = Fp::from_int(self.order as u64).inverse();
        let n = a.len();
        for i in 0..n
            invariant
                n == a@.len(),
                n == d.len(),
                t@ == finv(n as int),
                d == dft(y, finv(self.omega@)),
                forall|p: int| 0 <= p < i ==> (#[trigger] a@[p])@ == fmul(d[p], t@),
                forall|p: int| i <= p < n ==> (#[trigger] a@[p])@ == d[p],
        {
            let x = a[i].mul(t);
            a.set(i, x);
        }
        proof {
            assert(vals(a@) =~= idft(y, self.omega@));
        }
    }

    /// The values at `shift * omega^i` of the polynomial whose coefficients
    /// are in `a`: the coefficients scaled by powers of `shift`, transformed.
    pub fn coset_fft(&self, a: &mut Vec<Fp>, shift: Fp)
        requires
            self.wf(),
            old(a)@.len() == self.order_spec(),
        ensures
            final(a)@.len() == old(a)@.len(),
            vals(final(a)@) == dft(scaled(vals(old(a)@), shift@), self.omega_spec()),
    {
        multiply_by_coset(a, shift);
        self.fft(a);
    }

    /// The coefficients of the polynomial whose values at `shift * omega^i`
    /// are in `a`: the inverse transform, scaled by powers of `shift^-1`.
    pub fn coset_ifft(&self, a: &mut Vec<Fp>, shift: Fp)
        requires
            self.wf(),
            shift@ != 0,
            old(a)@.len() == self.order_spec(),
        ensures
            final(a)@.len() == old(a)@.len(),
            vals(final(a)@) == scaled(idft(vals(old(a)@), self.omega_spec()), finv(shift@)),
    {
        self.ifft(a);
        multiply_by_coset(a, shift.inverse());
    }
}


/// `x`'s lowest `len` bits in reverse order.
pub open spec fn rev_bits(x: nat, len: nat) -> nat
    decreases len,
{
    if len == 0 {
        0
    } else {
        (x % 2) * pow2((len - 1) as nat) + rev_bits(x / 2, (len - 1) as nat)
    }
}

pub proof fn lemma_rev_bits_bound(x: nat, len: nat)
    ensures
        rev_bits(x, len) < pow2(len),
    decreases len,
{
    lemma_pow2_pos(len);
    if len > 0 {
        lemma_rev_bits_bound(x / 2, (len - 1) as nat);
        lemma_pow2_unfold(len);
        let h = pow2((len - 1) as nat) as int;
        let b = (x % 2) as int;
        assert(b * h <= h) by (nonlinear_arith)
            requires
                0 <= b <= 1,
                h > 0,
        ;
    }
}

/// Reversing `len` bits of `b * 2^(len-1) + z`, with `b` a bit and
/// `z < 2^(len-1)`, gives `rev(z)` shifted up by one with `b` at the bottom.
proof fn lemma_rev_bits_top(b: nat, z: nat, len: nat)
    requires
        len >= 1,
        b <= 1,
        z < pow2((len - 1) as nat),
    ensures
        rev_bits(b * pow2((len - 1) as nat) + z, len) == 2 * rev_bits(z, (len - 1) as nat) + b,
    decreases len,
{
    lemma2_to64();
    if len == 1 {
        assert(z == 0);
        assert(rev_bits(b, 1) == (b % 2) * pow2(0) + rev_bits(b / 2, 0));
    } else {
        let l1 = (len - 1) as nat;
        let l2 = (len - 2) as nat;
        lemma_pow2_unfold(l1);
        let q = pow2(l2);
        let y = b * pow2(l1) + z;
        assert(y == 2 * (b * q + z / 2) + z % 2) by (nonlinear_arith)
            requires
                y == b * pow2(l1) + z,
                pow2(l1) == 2 * q,
                z == 2 * (z / 2) + z % 2,
        ;
        assert(y % 2 == z % 2 && y / 2 == b * q + z / 2) by {
            vstd::arithmetic::div_mod::lemma_fundamental_div_mod_converse(
                y as int, 2, (b * q + z / 2) as int, (z % 2) as int);
        }
        assert(z / 2 < q) by (nonlinear_arith)
            requires
                z < 2 * q,
        ;
        lemma_rev_bits_top(b, z / 2, l1);
        assert(rev_bits(z, l1) == (z % 2) * q + rev_bits(z / 2, l2));
        assert(rev_bits(y, len) == (y % 2) * pow2(l1) + rev_bits(y / 2, l1));
        assert((z % 2) * pow2(l1) == 2 * ((z % 2) * q)) by (nonlinear_arith)
            requires
                pow2(l1) == 2 * q,
        ;
    }
}

/// Reversing bits twice gives the number back.
pub proof fn lemma_rev_bits_involution(x: nat, len: nat)
    requires
        x < pow2(len),
    ensures
        rev_bits(rev_bits(x, len), len) == x,
    decreases len,
{
    lemma2_to64();
    if len > 0 {
        let l1 = (len - 1) as nat;
        lemma_pow2_unfold(len);
        assert(x / 2 < pow2(l1));
        lemma_rev_bits_bound(x / 2, l1);
        lemma_rev_bits_involution(x / 2, l1);
        lemma_rev_bits_top(x % 2, rev_bits(x / 2, l1), len);
    }
}

/// `x` permuted by bit reversal of the indices.
pub open spec fn bit_reversed(x: Seq<int>, l: nat) -> Seq<int> {
    Seq::new(x.len(), |p: int| x[rev_bits(p as nat, l) as int])
}

/// `x[off], x[off + stride], ...`, `len` entries.
pub open spec fn strided(x: Seq<int>, off: int, stride: int, len: nat) -> Seq<int> {
    Seq::new(len, |u: int| x[off + stride * u])
}

/// The array after `s` butterfly stages of the transform of `x` (of length
/// `2^l`) with root `w`: block `b` of size `2^s` holds the transform, with
/// root `w^(2^(l-s))`, of the entries of `x` at `rev(b) + 2^(l-s) * u`.
pub open spec fn stage(x: Seq<int>, w: int, l: nat, s: nat) -> Seq<int> {
    Seq::new(
        x.len(),
        |p: int|
            ntt(
                strided(
                    x,
                    rev_bits((p / pow2(s) as int) as nat, (l - s) as nat) as int,
                    pow2((l - s) as nat) as int,
                    pow2(s),
                ),
                fpow(w, pow2((l - s) as nat)),
            )[p % pow2(s) as int],
    )
}

proof fn lemma_stage_zero(x: Seq<int>, w: int, l: nat)
    requires
        x.len() == pow2(l),
    ensures
        stage(x, w, l, 0) == bit_reversed(x, l),
{
    lemma2_to64();
    assert forall|p: int| 0 <= p < x.len() implies #[trigger] stage(x, w, l, 0)[p] == bit_reversed(x, l)[p] by {
        let r = rev_bits(p as nat, l) as int;
        let st = strided(x, r, pow2(l) as int, 1);
        assert(st.len() == 1);
        assert(st[0] == x[r + pow2(l) * 0]);
    }
    assert(stage(x, w, l, 0) =~= bit_reversed(x, l));
}

proof fn lemma_stage_last(x: Seq<int>, w: int, l: nat)
    requires
        x.len() == pow2(l),
        0 <= w < P,
    ensures
        stage(x, w, l, l) == ntt(x, w),
{
    lemma2_to64();
    lemma_fpow_small(w);
    let n = pow2(l) as int;
    lemma_pow2_pos(l);
    assert(rev_bits(0, 0) == 0);
    assert(strided(x, 0, 1, pow2(l)) =~= x);
    assert forall|p: int| 0 <= p < n implies #[trigger] stage(x, w, l, l)[p] == ntt(x, w)[p] by {
        vstd::arithmetic::div_mod::lemma_fundamental_div_mod_converse(p, n, 0, p);
        vstd::arithmetic::div_mod::lemma_small_mod(p as nat, n as nat);
        assert(p / n == 0);
    }
    assert(stage(x, w, l, l) =~= ntt(x, w));
}

/// One butterfly: block `b` of size `2m` after stage `s + 1` is made of
/// blocks `2b` and `2b + 1` after stage `s`.
proof fn lemma_stage_step(x: Seq<int>, w: int, l: nat, s: nat, b: int, t: int)
    requires
        x.len() == pow2(l),
        s < l,
        0 <= b,
        (b + 1) * pow2(s + 1) <= pow2(l),
        0 <= t < pow2(s),
    ensures
        ({
            let m = pow2(s) as int;
            let r = fpow(w, pow2((l - s - 1) as nat));
            let lo = stage(x, w, l, s)[b * (2 * m) + t];
            let hi = stage(x, w, l, s)[b * (2 * m) + m + t];
            &&& stage(x, w, l, s + 1)[b * (2 * m) + t] == fadd(lo, fmul(fpow(r, t as nat), hi))
            &&& stage(x, w, l, s + 1)[b * (2 * m) + m + t] == fsub(lo, fmul(fpow(r, t as nat), hi))
        }),
{
    let m = pow2(s) as int;
    lemma_pow2_unfold(s + 1);
    lemma_pow2_pos(s);
    let m2 = pow2(s + 1) as int;
    assert(m2 == 2 * m);
    let l1 = (l - s - 1) as nat;
    let l0 = (l - s) as nat;
    lemma_pow2_unfold(l0);
    let c1 = pow2(l1) as int;
    let c0 = pow2(l0) as int;
    assert(c0 == 2 * c1);
    let r = fpow(w, c1 as nat);
    let p = b * m2 + t;
    let p2 = b * m2 + m + t;
    vstd::arithmetic::div_mod::lemma_fundamental_div_mod_converse(p, m2, b, t);
    vstd::arithmetic::div_mod::lemma_fundamental_div_mod_converse(p2, m2, b, m + t);
    let q = 2 * b * m + t;
    let q2 = (2 * b + 1) * m + t;
    assert(p == q && p2 == q2) by (nonlinear_arith)
        requires
            p == b * m2 + t,
            p2 == b * m2 + m + t,
            m2 == 2 * m,
            q == 2 * b * m + t,
            q2 == (2 * b + 1) * m + t,
    ;
    vstd::arithmetic::div_mod::lemma_fundamental_div_mod_converse(q, m, 2 * b, t);
    vstd::arithmetic::div_mod::lemma_fundamental_div_mod_converse(q2, m, 2 * b + 1, t);
    assert(p2 < pow2(l)) by (nonlinear_arith)
        requires
            p2 == b * m2 + m + t,
            (b + 1) * m2 <= pow2(l),
            m2 == 2 * m,
            t < m,
    ;
    let off = rev_bits(b as nat, l1) as int;
    let xs = strided(x, off, c1, pow2(s + 1));
    assert((2 * b) % 2 == 0 && (2 * b) / 2 == b);
    assert((2 * b + 1) % 2 == 1 && (2 * b + 1) / 2 == b);
    assert(l0 - 1 == l1);
    assert(rev_bits((2 * b) as nat, l0) == 0 * pow2(l1) + rev_bits(b as nat, l1));
    assert(rev_bits((2 * b + 1) as nat, l0) == 1 * pow2(l1) + rev_bits(b as nat, l1));
    assert(rev_bits((2 * b) as nat, l0) == off);
    assert(rev_bits((2 * b + 1) as nat, l0) == c1 + off);
    assert(evens(xs) =~= strided(x, off, c0, pow2(s))) by {
        assert forall|u: int| 0 <= u < m implies #[trigger] evens(xs)[u] == strided(x, off, c0, pow2(s))[u] by {
            assert(off + c1 * (2 * u) == off + c0 * u) by (nonlinear_arith)
                requires
                    c0 == 2 * c1,
            ;
        }
    }
    assert(odds(xs) =~= strided(x, c1 + off, c0, pow2(s))) by {
        assert forall|u: int| 0 <= u < m implies #[trigger] odds(xs)[u] == strided(x, c1 + off, c0, pow2(s))[u] by {
            assert(off + c1 * (2 * u + 1) == c1 + off + c0 * u) by (nonlinear_arith)
                requires
                    c0 == 2 * c1,
            ;
        }
    }
    lemma_fpow_add(w, c1 as nat, c1 as nat);
    assert(xs.len() / 2 == m);
}

/// Reverses the lowest `len` bits of `x`.
fn bitreverse(x: usize, len: usize) -> (r: usize)
    requires
        len < usize::BITS,
    ensures
        r == rev_bits(x as nat, len as nat),
        r < pow2(len as nat),
{
    let mut r: usize = 0;
    let mut y: usize = x;
    proof {
        lemma2_to64();
    }
    for i in 0..len
        invariant
            len < usize::BITS,
            r < pow2(i as nat),
            r * pow2((len - i) as nat) + rev_bits(y as nat, (len - i) as nat) == rev_bits(x as nat, len as nat),
    {
        proof {
            let rest = (len - i - 1) as nat;
            lemma_pow2_unfold((len - i) as nat);
            lemma_pow2_unfold((i + 1) as nat);
            lemma_pow2_strictly_increases((i + 1) as nat, usize::BITS as nat);
            vstd::layout::unsigned_int_max_values();
            lemma2_to64();
            lemma2_to64_rest();
            assert(2 * r + y % 2 < pow2((i + 1) as nat));
            let p = pow2(rest) as int;
            assert(r * (2 * p) + (y % 2) * p == (2 * r + y % 2) * p) by (nonlinear_arith);
        }
        r = 2 * r + y % 2;
        y = y / 2;
    }
    proof {
        lemma2_to64();
    }
    r
}

/// Multiplies the `i`-th entry of `a` by `shift^i`.
fn multiply_by_coset(a: &mut Vec<Fp>, shift: Fp)
    ensures
        final(a)@.len() == old(a)@.len(),
        vals(final(a)@) == scaled(vals(old(a)@), shift@),
{
    let mut t = shift;
    let n = a.len();
    if n > 0 {
        proof {
            lemma_fmul_one(a@[0]@);
            assert(fpow(shift@, 0) == 1);
        }
    }
    proof {
        lemma_fpow_small(shift@);
    }
    let mut i: usize = 1;
    while i < n
        invariant
            1 <= i,
            n == a@.len(),
            a@.len() == old(a)@.len(),
            t@ == fpow(shift@, i as nat),
            forall|j: int| i <= j < n ==> #[trigger] a@[j] == old(a)@[j],
            forall|j: int| 0 <= j < i && j < n ==> #[trigger] a@[j]@ == fmul(old(a)@[j]@, fpow(shift@, j as nat)),
        decreases n - i,
    {
        let x = a[i].mul(t);
        a.set(i, x);
        proof {
            lemma_fmul_comm(shift@, t@);
        }
        t = t.mul(shift);
        i = i + 1;
    }
    proof {
        assert(vals(a@) =~= scaled(vals(old(a)@), shift@));
    }
}

/// `log2(n)` for a power of two `n`.
fn log2(n: usize) -> (r: usize)
    requires
        is_order(n as nat),
    ensures
        r <= 20,
        pow2(r as nat) == n,
{
    let ghost k = choose|k: nat| k <= 20 && pow2(k) == n as nat;
    let mut r: usize = 0;
    let mut t: usize = 1;
    proof {
        lemma2_to64();
    }
    while t < n
        invariant
            k <= 20,
            pow2(k) == n,
            r <= k,
            t == pow2(r as nat),
        decreases k - r,
    {
        proof {
            if r == k {
                assert(false);
            }
            lemma_pow2_unfold((r + 1) as nat);
            if r + 1 < k {
                lemma_pow2_strictly_increases((r + 1) as nat, k);
            }
        }
        t = t * 2;
        r = r + 1;
    }
    proof {
        if r < k {
            lemma_pow2_strictly_increases(r as nat, k);
        }
    }
    r
}

/// The in-place radix-2 transform of `a` with root `omega`: bit-reversal
/// permutation, then one butterfly stage per bit of the length.
fn _fft(a: &mut Vec<Fp>, omega: Fp)
    requires
        is_order(old(a)@.len()),
        is_primitive_root(omega@, old(a)@.len()),
    ensures
        final(a)@.len() == old(a)@.len(),
        vals(final(a)@) == dft(vals(old(a)@), omega@),
{
    let ghost x = vals(a@);
    let n = a.len();
    let log_n = log2(n);
    for i in 0..n
        invariant
            n == a@.len(),
            x.len() == n,
            log_n <= 20,
            pow2(log_n as nat) == n,
            forall|p: int|
                0 <= p < n ==> (#[trigger] a@[p])@ == x[
                    if p < i || rev_bits(p as nat, log_n as nat) < i {
                        rev_bits(p as nat, log_n as nat) as int
                    } else {
                        p
                    }
                ],
    {
        let rank = bitreverse(i, log_n);
        proof {
            lemma_rev_bits_bound(i as nat, log_n as nat);
            lemma_rev_bits_involution(i as nat, log_n as nat);
            assert forall|p: int| 0 <= p < n && #[trigger] rev_bits(p as nat, log_n as nat) == i implies p == rank by {
                lemma_rev_bits_involution(p as nat, log_n as nat);
            }
        }
        if i < rank {
            let xi = a[i];
            let xr = a[rank];
            a.set(i, xr);
            a.set(rank, xi);
        }
    }
    proof {
        lemma_stage_zero(x, omega@, log_n as nat);
        assert(vals(a@) =~= stage(x, omega@, log_n as nat, 0));
    }
    let mut m: usize = 1;
    let mut log_m: usize = 0;
    proof {
        lemma2_to64();
    }
    while log_m < log_n
        invariant
            n == a@.len(),
            x.len() == n,
            log_n <= 20,
            pow2(log_n as nat) == n,
            log_m <= log_n,
            m == pow2(log_m as nat),
            vals(a@) == stage(x, omega@, log_n as nat, log_m as nat),
        decreases log_n - log_m,
    {
        let ghost blocks = pow2((log_n - log_m - 1) as nat);
        let ghost prev = stage(x, omega@, log_n as nat, log_m as nat);
        let ghost next = stage(x, omega@, log_n as nat, (log_m + 1) as nat);
        proof {
            lemma_pow2_adds((log_n - log_m - 1) as nat, (log_m + 1) as nat);
            lemma_pow2_unfold((log_m + 1) as nat);
            lemma_pow2_pos((log_n - log_m - 1) as nat);
            lemma_pow2_pos(log_m as nat);
            assert(n == blocks * (2 * m));
            assert(2 * m <= n) by (nonlinear_arith)
                requires
                    n == blocks * (2 * m),
                    blocks > 0,
                    m > 0,
            ;
            vstd::arithmetic::div_mod::lemma_div_multiples_vanish(blocks as int, (2 * m) as int);
            vstd::arithmetic::mul::lemma_mul_is_commutative(blocks as int, (2 * m) as int);
        }
        let w_m = omega.pow(n / (2 * m));
        let mut j: usize = 0;
        let ghost mut q: int = 0;
        while j < n
            invariant
                n == a@.len(),
                x.len() == n,
                log_m < log_n,
                pow2(log_n as nat) == n,
                m == pow2(log_m as nat),
                n == blocks * (2 * m),
                pow2((log_m + 1) as nat) == 2 * m,
                blocks == pow2((log_n - log_m - 1) as nat),
                w_m@ == fpow(omega@, blocks),
                prev == stage(x, omega@, log_n as nat, log_m as nat),
                next == stage(x, omega@, log_n as nat, (log_m + 1) as nat),
                m >= 1,
                j == q * (2 * m),
                0 <= q <= blocks,
                forall|p: int| 0 <= p < j ==> (#[trigger] a@[p])@ == next[p],
                forall|p: int| j <= p < n ==> (#[trigger] a@[p])@ == prev[p],
            decreases n - j,
        {
            proof {
                assert(q < blocks) by (nonlinear_arith)
                    requires
                        j == q * (2 * m),
                        j < n,
                        n == blocks * (2 * m),
                        m >= 1,
                ;
                assert(j + 2 * m <= n) by (nonlinear_arith)
                    requires
                        j == q * (2 * m),
                        q + 1 <= blocks,
                        n == blocks * (2 * m),
                ;
                assert((q + 1) * pow2((log_m + 1) as nat) <= pow2(log_n as nat)) by (nonlinear_arith)
                    requires
                        j == q * (2 * m),
                        j + 2 * m <= n,
                        pow2((log_m + 1) as nat) == 2 * m,
                        pow2(log_n as nat) == n,
                ;
                lemma_fpow_small(w_m@);
            }
            let mut w = Fp::from_int(1);
            for k in 0..m
                invariant
                    n == a@.len(),
                    x.len() == n,
                    log_m < log_n,
                    pow2(log_n as nat) == n,
                    m == pow2(log_m as nat),
                    j + 2 * m <= n,
                    j == q * (2 * m),
                    0 <= q,
                    (q + 1) * pow2((log_m + 1) as nat) <= pow2(log_n as nat),
                    blocks == pow2((log_n - log_m - 1) as nat),
                    w_m@ == fpow(omega@, blocks),
                    w@ == fpow(w_m@, k as nat),
                    prev == stage(x, omega@, log_n as nat, log_m as nat),
                    next == stage(x, omega@, log_n as nat, (log_m + 1) as nat),
                    forall|p: int| 0 <= p < j + k ==> (#[trigger] a@[p])@ == next[p],
                    forall|p: int| j + m <= p < j + m + k ==> (#[trigger] a@[p])@ == next[p],
                    forall|p: int| j + k <= p < j + m ==> (#[trigger] a@[p])@ == prev[p],
                    forall|p: int| j + m + k <= p < n ==> (#[trigger] a@[p])@ == prev[p],
            {
                proof {
                    lemma_stage_step(x, omega@, log_n as nat, log_m as nat, q, k as int);
                    assert(q * (2 * m) + m + k == j + k + m);
                }
                let t = w.mul(a[j + k + m]);
                let hi = a[j + k].sub(t);
                let lo = a[j + k].add(t);
                a.set(j + k + m, hi);
                a.set(j + k, lo);
                proof {
                    lemma_fmul_comm(w_m@, w@);
                }
                w = w.mul(w_m);
            }
            j = j + 2 * m;
            proof {
                q = q + 1;
                assert(j == q * (2 * m)) by (nonlinear_arith)
                    requires
                        j == (q - 1) * (2 * m) + 2 * m,
                ;
            }
        }
        proof {
            assert(vals(a@) =~= next);
        }
        m = 2 * m;
        log_m = log_m + 1;
    }
    proof {
        lemma_stage_last(x, omega@, log_n as nat);
        lemma_ntt_is_dft(x, omega@, log_n as nat);
        assert(vals(a@).len() == a@.len());
    }
}

} // verus!
