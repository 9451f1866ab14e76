//! What the transforms compute: polynomial evaluation at powers of a root of
//! unity, and the radix-2 recursion that yields the same values.
use vstd::prelude::*;
use vstd::arithmetic::power2::*;
use crate::field::{
    P, fadd, fsub, fmul, fpow, finv, is_primitive_root, lemma_fadd_assoc, lemma_fadd_comm,
    lemma_fadd_zero, lemma_fmul_fadd, lemma_fmul_assoc, lemma_fmul_comm, lemma_fadd_neg,
    lemma_fpow_add, lemma_fpow_mul, lemma_fpow_range, lemma_fmul_one, lemma_fpow_small,
};

verus! {

/// `f(0) + f(1) + ... + f(n - 1)` in the field.
pub open spec fn fsum(f: spec_fn(int) -> int, n: nat) -> int
    decreases n,
{
    if n == 0 {
        0
    } else {
        fadd(fsum(f, (n - 1) as nat), f(n - 1))
    }
}

/// The value at `x` of the polynomial with coefficients `c` (lowest first).
pub open spec fn poly_eval(c: Seq<int>, x: int) -> int {
    fsum(|j: int| fmul(c[j], fpow(x, j as nat)), c.len())
}

/// The discrete Fourier transform: the values of `a` at `w^0, w^1, ...`.
pub open spec fn dft(a: Seq<int>, w: int) -> Seq<int> {
    Seq::new(a.len(), |k: int| poly_eval(a, fpow(w, k as nat)))
}

/// The inverse transform: the transform with `w^-1`, divided by the length.
pub open spec fn idft(a: Seq<int>, w: int) -> Seq<int> {
    Seq::new(a.len(), |k: int| fmul(dft(a, finv(w))[k], finv(a.len() as int)))
}

/// `a[i] * s^i` for every `i`.
pub open spec fn scaled(a: Seq<int>, s: int) -> Seq<int> {
    Seq::new(a.len(), |i: int| fmul(a[i], fpow(s, i as nat)))
}

/// Entries at even positions.
pub open spec fn evens(x: Seq<int>) -> Seq<int> {
    Seq::new(x.len() / 2, |i: int| x[2 * i])
}

/// Entries at odd positions.
pub open spec fn odds(x: Seq<int>) -> Seq<int> {
    Seq::new(x.len() / 2, |i: int| x[2 * i + 1])
}

/// The radix-2 recursion: transform the even and the odd entries with
/// `w^2` and combine them with butterflies.
pub open spec fn ntt(x: Seq<int>, w: int) -> Seq<int>
    decreases x.len(),
{
    if x.len() <= 1 {
        x
    } else {
        let h = x.len() / 2;
        let e = ntt(evens(x), fmul(w, w));
        let o = ntt(odds(x), fmul(w, w));
        Seq::new(
            x.len(),
            |k: int|
                if k < h {
                    fadd(e[k], fmul(fpow(w, k as nat), o[k]))
                } else {
                    fsub(e[k - h], fmul(fpow(w, (k - h) as nat), o[k - h]))
                },
        )
    }
}

pub proof fn lemma_fsum_range(f: spec_fn(int) -> int, n: nat)
    ensures
        0 <= fsum(f, n) < P,
{
}

/// Sums of functions that agree on `[0, n)` are equal.
pub proof fn lemma_fsum_ext(f: spec_fn(int) -> int, g: spec_fn(int) -> int, n: nat)
    requires
        forall|i: int| 0 <= i < n ==> #[trigger] f(i) == g(i),
    ensures
        fsum(f, n) == fsum(g, n),
    decreases n,
{
    if n > 0 {
        lemma_fsum_ext(f, g, (n - 1) as nat);
    }
}

/// `sum (a(i) + b(i)) = sum a(i) + sum b(i)`.
pub proof fn lemma_fsum_add(a: spec_fn(int) -> int, b: spec_fn(int) -> int, n: nat)
    ensures
        fsum(|i: int| fadd(a(i), b(i)), n) == fadd(fsum(a, n), fsum(b, n)),
    decreases n,
{
    if n == 0 {
        lemma_fadd_zero(0);
    } else {
        let n1 = (n - 1) as nat;
        lemma_fsum_add(a, b, n1);
        let (sa, sb, x, y) = (fsum(a, n1), fsum(b, n1), a(n1 as int), b(n1 as int));
        // (sa + sb) + (x + y) == (sa + x) + (sb + y)
        lemma_fadd_assoc(fadd(sa, sb), x, y);
        lemma_fadd_assoc(sa, sb, x);
        lemma_fadd_comm(sb, x);
        lemma_fadd_assoc(sa, x, sb);
        lemma_fadd_assoc(fadd(sa, x), sb, y);
        lemma_fadd_regroup(x, y);
        lemma_fadd_regroup(fadd(sa, sb), x + y);
    }
}

proof fn lemma_fadd_regroup(x: int, y: int)
    ensures
        forall|s: int| #[trigger] fadd(s, fadd(x, y)) == fadd(fadd(s, x), y),
{
    assert forall|s: int| #[trigger] fadd(s, fadd(x, y)) == fadd(fadd(s, x), y) by {
        lemma_fadd_assoc(s, x, y);
    }
}

/// `sum c * f(i) = c * sum f(i)`.
pub proof fn lemma_fsum_scale(c: int, f: spec_fn(int) -> int, n: nat)
    ensures
        fsum(|i: int| fmul(c, f(i)), n) == fmul(c, fsum(f, n)),
    decreases n,
{
    if n == 0 {
    } else {
        lemma_fsum_scale(c, f, (n - 1) as nat);
        lemma_fmul_fadd(c, fsum(f, (n - 1) as nat), f(n - 1));
        vstd::arithmetic::div_mod::lemma_mul_mod_noop_right(c, f(n - 1), P as int);
        crate::field::lemma_fmul_mod(c, f(n - 1));
    }
}

/// A sum over `[0, 2h)` is the sum over the even points plus the sum over
/// the odd points.
pub proof fn lemma_fsum_split(f: spec_fn(int) -> int, h: nat)
    ensures
        fsum(f, 2 * h) == fadd(fsum(|i: int| f(2 * i), h), fsum(|i: int| f(2 * i + 1), h)),
    decreases h,
{
    let ev = |i: int| f(2 * i);
    let od = |i: int| f(2 * i + 1);
    if h == 0 {
        lemma_fadd_zero(0);
    } else {
        let h1 = (h - 1) as nat;
        lemma_fsum_split(f, h1);
        assert(fsum(f, (2 * h - 1) as nat) == fadd(fsum(f, 2 * h1), f(2 * (h1 as int))));
        assert(fsum(f, 2 * h) == fadd(fadd(fsum(f, 2 * h1), f(2 * (h1 as int))), f(2 * (h1 as int) + 1)));
        let (se, so, x, y) = (fsum(ev, h1), fsum(od, h1), f(2 * (h1 as int)), f(2 * (h1 as int) + 1));
        assert(fsum(ev, h) == fadd(se, x));
        assert(fsum(od, h) == fadd(so, y));
        // ((se + so) + x) + y == (se + x) + (so + y)
        lemma_fadd_assoc(fadd(se, so), x, y);
        lemma_fadd_assoc(se, so, x);
        lemma_fadd_comm(so, x);
        lemma_fadd_assoc(se, x, so);
        lemma_fadd_assoc(fadd(se, x), so, y);
        vstd::arithmetic::div_mod::lemma_mod_twice(x + y, P as int);
        lemma_fadd_regroup(x, y);
        lemma_fadd_regroup(so, y);
    }
}

/// Every entry lies in `[0, p)`.
pub open spec fn in_field(x: Seq<int>) -> bool {
    forall|i: int| 0 <= i < x.len() ==> 0 <= #[trigger] x[i] < P
}

/// `w^(a + n*b) = w^a` when `w^n = 1`.
proof fn lemma_fpow_periodic(w: int, n: nat, a: nat, b: nat)
    requires
        fpow(w, n) == 1,
    ensures
        fpow(w, a + n * b) == fpow(w, a),
{
    lemma_fpow_add(w, a, n * b);
    lemma_fpow_mul(w, n, b);
    crate::field::lemma_fpow_one(b);
    lemma_fpow_range(w, a);
    lemma_fmul_one(fpow(w, a));
}

pub proof fn lemma_fpow_two(w: int)
    ensures
        fpow(w, 2) == fmul(w, w),
{
    reveal_with_fuel(fpow, 3);
    crate::field::lemma_fmul_mod(w, w);
    vstd::arithmetic::div_mod::lemma_small_mod(1, P as nat);
}

/// The even-indexed powers of `w^k` are the powers of `(w^2)^(k mod h)`.
proof fn lemma_even_term(w: int, h: nat, k: nat, i: nat)
    requires
        fpow(w, 2 * h) == 1,
        k < 2 * h,
    ensures
        fpow(fpow(w, k), 2 * i) == fpow(fpow(fmul(w, w), (k % h) as nat), i),
{
    let k1 = (k % h) as nat;
    lemma_fpow_mul(w, k, 2 * i);
    lemma_fpow_mul(fmul(w, w), k1, i);
    lemma_fpow_two(w);
    lemma_fpow_mul(w, 2, k1 * i);
    if k >= h {
        vstd::arithmetic::div_mod::lemma_fundamental_div_mod(k as int, h as int);
        assert(k % h == k - h) by (nonlinear_arith)
            requires
                h <= k < 2 * h,
                k == h * (k / h) + k % h,
                0 <= k % h < h,
        ;
        assert(k1 == k - h);
        assert(k * (2 * i) == 2 * (k1 * i) + (2 * h) * i) by (nonlinear_arith)
            requires
                k1 == k - h,
        ;
        lemma_fpow_periodic(w, 2 * h, 2 * (k1 * i), i);
    } else {
        vstd::arithmetic::div_mod::lemma_small_mod(k, h);
        assert(k * (2 * i) == 2 * (k1 * i)) by (nonlinear_arith)
            requires
                k1 == k,
        ;
    }
}

/// The radix-2 recursion computes the discrete Fourier transform, for a
/// power-of-two length and a generator of the subgroup of that order.
pub proof fn lemma_ntt_is_dft(x: Seq<int>, w: int, l: nat)
    requires
        x.len() == pow2(l),
        in_field(x),
        is_primitive_root(w, x.len()),
    ensures
        ntt(x, w) == dft(x, w),
    decreases l,
{
    let n = x.len();
    if l == 0 {
        lemma2_to64();
        assert(n == 1);
        let k = 0int;
        assert(fpow(w, 0) == 1);
        crate::field::lemma_fpow_one(0);
        lemma_fmul_one(x[0]);
        lemma_fadd_zero(x[0]);
        let f = |j: int| fmul(x[j], fpow(fpow(w, 0), j as nat));
        assert(f(0) == x[0]);
        assert(fsum(f, 1) == fadd(fsum(f, 0), f(0)));
        assert(dft(x, w)[0] == fsum(f, 1));
        assert(dft(x, w)[0] == x[0]);
        assert(ntt(x, w) =~= dft(x, w));
    } else {
        lemma_pow2_unfold(l);
        let h = pow2((l - 1) as nat);
        assert(n == 2 * h);
        lemma_pow2_pos((l - 1) as nat);
        let w2 = fmul(w, w);
        let e = evens(x);
        let o = odds(x);
        // w^2 generates the subgroup of order h
        lemma_fpow_two(w);
        lemma_fpow_mul(w, 2, h);
        if h >= 2 {
            assert(h % 2 == 0) by {
                if l - 1 == 0 {
                    lemma2_to64();
                } else {
                    lemma_pow2_unfold((l - 1) as nat);
                }
            }
            assert(2 * (h / 2) == h);
            lemma_fpow_mul(w, 2, h / 2);
        }
        assert(n / 2 == h);
        assert(is_primitive_root(w2, h));
        assert(in_field(e));
        assert(in_field(o));
        lemma_ntt_is_dft(e, w2, (l - 1) as nat);
        lemma_ntt_is_dft(o, w2, (l - 1) as nat);
        let de = dft(e, w2);
        let d_o = dft(o, w2);
        assert forall|k: int| 0 <= k < n implies #[trigger] ntt(x, w)[k] == dft(x, w)[k] by {
            lemma_dft_entry(x, w, h, k as nat);
        }
        assert(ntt(x, w) =~= dft(x, w));
    }
}

/// One entry of the transform, split into its even and odd halves.
proof fn lemma_dft_entry(x: Seq<int>, w: int, h: nat, k: nat)
    requires
        x.len() == 2 * h,
        h > 0,
        k < 2 * h,
        in_field(x),
        fpow(w, 2 * h) == 1,
        fpow(w, h) == P - 1,
        ntt(evens(x), fmul(w, w)) == dft(evens(x), fmul(w, w)),
        ntt(odds(x), fmul(w, w)) == dft(odds(x), fmul(w, w)),
    ensures
        ntt(x, w)[k as int] == dft(x, w)[k as int],
{
    let n = 2 * h;
    let w2 = fmul(w, w);
    let e = evens(x);
    let o = odds(x);
    let k1 = (k % h) as nat;
    let wk = fpow(w, k);
    let v = fpow(w2, k1);
    let f = |j: int| fmul(x[j], fpow(wk, j as nat));
    let fe = |i: int| fmul(e[i], fpow(v, i as nat));
    let fo = |i: int| fmul(o[i], fpow(v, i as nat));
    lemma_fsum_split(f, h);
    lemma_fpow_range(w, k);
    assert forall|i: int| 0 <= i < h implies #[trigger] f(2 * i) == fe(i) by {
        lemma_even_term(w, h, k, i as nat);
    }
    lemma_fsum_ext(|i: int| f(2 * i), fe, h);
    assert forall|i: int| 0 <= i < h implies #[trigger] f(2 * i + 1) == fmul(wk, fo(i)) by {
        lemma_even_term(w, h, k, i as nat);
        lemma_fpow_add(wk, 1, (2 * i) as nat);
        lemma_fpow_small(wk);
        let t = fpow(wk, (2 * i) as nat);
        lemma_fmul_assoc(x[2 * i + 1], wk, t);
        lemma_fmul_comm(x[2 * i + 1], wk);
        lemma_fmul_assoc(wk, x[2 * i + 1], t);
    }
    lemma_fsum_ext(|i: int| f(2 * i + 1), |i: int| fmul(wk, fo(i)), h);
    lemma_fsum_scale(wk, fo, h);
    assert(e.len() == h && o.len() == h);
    assert(dft(e, w2)[k1 as int] == fsum(fe, h));
    assert(dft(o, w2)[k1 as int] == fsum(fo, h));
    assert(dft(x, w)[k as int] == fsum(f, n));
    if k < h {
        vstd::arithmetic::div_mod::lemma_small_mod(k, h);
    } else {
        vstd::arithmetic::div_mod::lemma_fundamental_div_mod(k as int, h as int);
        assert(k % h == k - h) by (nonlinear_arith)
            requires
                h <= k < 2 * h,
                k == h * (k / h) + k % h,
                0 <= k % h < h,
        ;
        assert(k1 == k - h);
        lemma_fpow_add(w, k1, h);
        let a = fpow(w, k1);
        let ov = fsum(fo, h);
        lemma_fmul_comm(a, P - 1);
        lemma_fmul_assoc(P - 1, a, ov);
        lemma_fadd_neg(fsum(fe, h), fmul(a, ov));
    }
}

/// Terms that vanish past `n1` add nothing.
pub proof fn lemma_fsum_zero_tail(f: spec_fn(int) -> int, n1: nat, n2: nat)
    requires
        n1 <= n2,
        forall|j: int| n1 <= j < n2 ==> #[trigger] f(j) == 0,
    ensures
        fsum(f, n2) == fsum(f, n1),
    decreases n2,
{
    if n2 > n1 {
        lemma_fsum_zero_tail(f, n1, (n2 - 1) as nat);
        lemma_fadd_zero(fsum(f, (n2 - 1) as nat));
    }
}

/// Trailing zero coefficients do not change a polynomial's values.
pub proof fn lemma_poly_eval_padded(c: Seq<int>, a: Seq<int>, x: int)
    requires
        c.len() <= a.len(),
        forall|i: int| 0 <= i < c.len() ==> #[trigger] a[i] == c[i],
        forall|i: int| c.len() <= i < a.len() ==> #[trigger] a[i] == 0,
    ensures
        poly_eval(a, x) == poly_eval(c, x),
{
    let fa = |j: int| fmul(a[j], fpow(x, j as nat));
    let fc = |j: int| fmul(c[j], fpow(x, j as nat));
    assert forall|j: int| c.len() <= j < a.len() implies #[trigger] fa(j) == 0 by {
        assert(a[j] == 0);
    }
    lemma_fsum_zero_tail(fa, c.len(), a.len());
    lemma_fsum_ext(fa, fc, c.len());
}

/// Transforming coefficients scaled by powers of `s` evaluates the
/// polynomial at `s * w^k`.
pub proof fn lemma_dft_scaled(c: Seq<int>, s: int, w: int, k: nat)
    requires
        k < c.len(),
    ensures
        dft(scaled(c, s), w)[k as int] == poly_eval(c, fmul(s, fpow(w, k))),
{
    let wk = fpow(w, k);
    let sc = scaled(c, s);
    let f1 = |j: int| fmul(sc[j], fpow(wk, j as nat));
    let f2 = |j: int| fmul(c[j], fpow(fmul(s, wk), j as nat));
    assert forall|j: int| 0 <= j < c.len() implies #[trigger] f1(j) == f2(j) by {
        crate::field::lemma_fpow_of_fmul(s, wk, j as nat);
        lemma_fmul_assoc(c[j], fpow(s, j as nat), fpow(wk, j as nat));
    }
    lemma_fsum_ext(f1, f2, c.len());
}

/// `sum_k sum_j g(j, k) = sum_j sum_k g(j, k)`.
pub proof fn lemma_fsum_swap(g: spec_fn(int, int) -> int, n: nat, m: nat)
    ensures
        fsum(|k: int| fsum(|j: int| g(j, k), n), m) == fsum(|j: int| fsum(|k: int| g(j, k), m), n),
    decreases m,
{
    if m == 0 {
        lemma_fsum_zero_tail(|j: int| fsum(|k: int| g(j, k), 0), 0, n);
    } else {
        let m1 = (m - 1) as nat;
        lemma_fsum_swap(g, n, m1);
        let a = |j: int| fsum(|k: int| g(j, k), m1);
        let b = |j: int| g(j, m1 as int);
        lemma_fsum_add(a, b, n);
        let lhs = |j: int| fsum(|k: int| g(j, k), m);
        assert forall|j: int| 0 <= j < n implies #[trigger] lhs(j) == fadd(a(j), b(j)) by {
        }
        lemma_fsum_ext(lhs, |j: int| fadd(a(j), b(j)), n);
        assert(fsum(|j: int| g(j, m1 as int), n) == fsum(b, n)) by {
            lemma_fsum_ext(|j: int| g(j, m1 as int), b, n);
        }
    }
}

/// A sum over `[0, h + len)` is the sum over `[0, h)` plus the sum over
/// `[h, h + len)`.
pub proof fn lemma_fsum_halves(f: spec_fn(int) -> int, h: nat, len: nat)
    ensures
        fsum(|i: int| f(i), h + len) == fadd(fsum(f, h), fsum(|i: int| f(h + i), len)),
    decreases len,
{
    if len == 0 {
        lemma_fsum_range(f, h);
        lemma_fadd_zero(fsum(f, h));
        lemma_fsum_ext(|i: int| f(i), f, h);
    } else {
        let l1 = (len - 1) as nat;
        lemma_fsum_halves(f, h, l1);
        lemma_fadd_assoc(fsum(f, h), fsum(|i: int| f(h + i), l1), f((h + l1) as int));
    }
}

/// A sum whose terms vanish but at `l` is its term at `l`.
pub proof fn lemma_fsum_single(f: spec_fn(int) -> int, n: nat, l: int)
    requires
        0 <= l < n,
        0 <= f(l) < P,
        forall|j: int| 0 <= j < n && j != l ==> #[trigger] f(j) == 0,
    ensures
        fsum(f, n) == f(l),
    decreases n,
{
    if n == l + 1 {
        lemma_fsum_zero_tail(f, 0, l as nat);
        lemma_fadd_zero(f(l));
    } else {
        lemma_fsum_single(f, (n - 1) as nat, l);
        lemma_fadd_zero(f(l));
    }
}

/// `1 + 1 + ... + 1 = n`.
pub proof fn lemma_fsum_ones(n: nat)
    ensures
        fsum(|k: int| 1int, n) == n as int % (P as int),
    decreases n,
{
    if n > 0 {
        lemma_fsum_ones((n - 1) as nat);
        vstd::arithmetic::div_mod::lemma_add_mod_noop((n - 1) as int, 1, P as int);
        vstd::arithmetic::div_mod::lemma_small_mod(1, P as nat);
    }
}

/// `1 + z + ... + z^(n-1) = 0` for `z = w^d`, `0 < d < n`, `w` a generator
/// of the subgroup of order `n`.
pub proof fn lemma_geometric_zero(w: int, l: nat, d: nat)
    requires
        is_primitive_root(w, pow2(l)),
        0 < d < pow2(l),
    ensures
        fsum(|k: int| fpow(fpow(w, d), k as nat), pow2(l)) == 0,
    decreases l,
{
    let n = pow2(l);
    let z = fpow(w, d);
    let f = |k: int| fpow(z, k as nat);
    lemma2_to64();
    if l == 0 {
        assert(false);
    }
    lemma_pow2_unfold(l);
    let h = pow2((l - 1) as nat);
    assert(n == 2 * h);
    // sum over [0, n) = (1 + z^h) * sum over [0, h)
    lemma_fsum_halves(f, h, h);
    lemma_fsum_ext(|i: int| f(i), f, 2 * h);
    assert forall|i: int| 0 <= i < h implies #[trigger] f(h + i) == fmul(fpow(z, h), f(i)) by {
        lemma_fpow_add(z, h, i as nat);
    }
    lemma_fsum_ext(|i: int| f(h + i), |i: int| fmul(fpow(z, h), f(i)), h);
    lemma_fsum_scale(fpow(z, h), f, h);
    let s = fsum(f, h);
    lemma_fsum_range(f, h);
    lemma_fpow_mul(w, d, h);
    if d % 2 == 1 {
        // z^h = (w^h)^d = -1
        lemma_fpow_mul(w, h, d);
        crate::field::lemma_fpow_neg_one_odd(d);
        assert(d * h == h * d) by (nonlinear_arith);
        lemma_fadd_neg(s, s);
        lemma_fmul_comm(P - 1, s);
        vstd::arithmetic::div_mod::lemma_small_mod(s as nat, P as nat);
    } else {
        // z = (w^2)^(d/2) and w^2 generates the subgroup of order h
        let d2 = d / 2;
        assert(d == 2 * d2);
        lemma_fpow_two(w);
        lemma_fpow_mul(w, 2, d2);
        lemma_fpow_mul(w, 2, h);
        assert(d2 < h);
        if h >= 2 {
            assert(h % 2 == 0) by {
                if l - 1 == 0 {
                } else {
                    lemma_pow2_unfold((l - 1) as nat);
                }
            }
            assert(2 * (h / 2) == h);
            lemma_fpow_mul(w, 2, h / 2);
        }
        assert(is_primitive_root(fmul(w, w), h));
        lemma_geometric_zero(fmul(w, w), (l - 1) as nat, d2);
        lemma_fsum_ext(|k: int| fpow(fpow(fmul(w, w), d2), k as nat), f, h);
        assert(s == 0);
    }
}

/// The order of a subgroup is invertible: `2^l * (-7 * 2^(20-l)) = 1`.
pub proof fn lemma_finv_pow2(l: nat)
    requires
        l <= 20,
    ensures
        fmul(pow2(l) as int, finv(pow2(l) as int)) == 1,
        0 <= pow2(l) < P,
{
    lemma2_to64();
    lemma_pow2_adds(l, (20 - l) as nat);
    let a = pow2(l) as int;
    let c = pow2((20 - l) as nat) as int;
    lemma_pow2_pos((20 - l) as nat);
    lemma_pow2_pos(l);
    assert(a * c == 1048576);
    assert(7 * c <= 7340032) by (nonlinear_arith)
        requires
            a * c == 1048576,
            a >= 1,
            c >= 1,
    ;
    assert(a <= 1048576) by (nonlinear_arith)
        requires
            a * c == 1048576,
            c >= 1,
    ;
    let b = P - 7 * c;
    assert(a * b == (a - 1) * P + 1) by (nonlinear_arith)
        requires
            a * c == 1048576,
            b == 7340033 - 7 * c,
            P == 7340033,
    ;
    vstd::arithmetic::div_mod::lemma_mod_multiples_vanish(a - 1, 1, P as int);
    vstd::arithmetic::div_mod::lemma_small_mod(1, P as nat);
    vstd::arithmetic::mul::lemma_mul_is_commutative(a - 1, P as int);
    crate::field::lemma_finv_unique(a, b);
}

/// The inverse of a generator of the subgroup of order `n` is `w^(n-1)`.
pub proof fn lemma_finv_root(w: int, n: nat)
    requires
        0 <= w < P,
        n >= 1,
        fpow(w, n) == 1,
    ensures
        finv(w) == fpow(w, (n - 1) as nat),
        fmul(w, finv(w)) == 1,
{
    lemma_fpow_add(w, 1, (n - 1) as nat);
    lemma_fpow_small(w);
    lemma_fpow_range(w, (n - 1) as nat);
    crate::field::lemma_finv_unique(w, fpow(w, (n - 1) as nat));
}

/// One term of the double sum in the inverse of a transform.
proof fn lemma_round_trip_term(w: int, n: nat, j: int, k: int, l: int)
    requires
        fpow(w, n) == 1,
        n >= 1,
        0 <= j,
        0 <= k,
        0 <= l,
    ensures
        fmul(fpow(fpow(w, k as nat), j as nat), fpow(fpow(fpow(w, (n - 1) as nat), l as nat), k as nat))
            == fpow(fpow(w, ((j + (n - 1) * l) % (n as int)) as nat), k as nat),
{
    let e = j + (n - 1) * l;
    lemma_fpow_mul(w, k as nat, j as nat);
    lemma_fpow_mul(w, (n - 1) as nat, l as nat);
    lemma_fpow_mul(w, ((n - 1) * l) as nat, k as nat);
    lemma_fpow_add(w, (k * j) as nat, ((n - 1) * l * k) as nat);
    assert(k * j + (n - 1) * l * k == e * k) by (nonlinear_arith)
        requires
            e == j + (n - 1) * l,
    ;
    lemma_fpow_mul(w, e as nat, k as nat);
    let d = e % (n as int);
    vstd::arithmetic::div_mod::lemma_fundamental_div_mod(e, n as int);
    assert(e / (n as int) >= 0) by (nonlinear_arith)
        requires
            e >= 0,
            n >= 1,
    ;
    lemma_fpow_periodic(w, n, d as nat, (e / (n as int)) as nat);
}

/// Round trip: the inverse transform undoes the transform.
pub proof fn lemma_idft_dft(x: Seq<int>, w: int, l: nat)
    requires
        l <= 20,
        x.len() == pow2(l),
        in_field(x),
        0 <= w < P,
        is_primitive_root(w, x.len()),
    ensures
        idft(dft(x, w), w) == x,
{
    let n = x.len();
    lemma_pow2_pos(l);
    lemma_finv_root(w, n);
    lemma_finv_pow2(l);
    let v = finv(w);
    let xx = dft(x, w);
    assert forall|t: int| 0 <= t < n implies #[trigger] idft(xx, w)[t] == x[t] by {
        lemma_round_trip_entry(x, w, l, t);
    }
    assert(idft(xx, w) =~= x);
}

proof fn lemma_round_trip_entry(x: Seq<int>, w: int, l: nat, t: int)
    requires
        l <= 20,
        x.len() == pow2(l),
        in_field(x),
        0 <= w < P,
        is_primitive_root(w, x.len()),
        0 <= t < x.len(),
    ensures
        idft(dft(x, w), w)[t] == x[t],
{
    let n = x.len();
    lemma_pow2_pos(l);
    lemma_finv_root(w, n);
    lemma_finv_pow2(l);
    let v = finv(w);
    let xx = dft(x, w);
    let ct = |k: int| fpow(fpow(v, t as nat), k as nat);
    let g = |j: int, k: int| fmul(x[j], fpow(fpow(w, ((j + (n - 1) * t) % (n as int)) as nat), k as nat));
    // dft(xx, v)[t] = sum_k xx[k] * c_k = sum_k sum_j g(j, k)
    assert forall|k: int| 0 <= k < n implies
        #[trigger] fmul(xx[k], ct(k)) == fsum(|j: int| g(j, k), n) by {
        let fk = |j: int| fmul(x[j], fpow(fpow(w, k as nat), j as nat));
        lemma_fmul_comm(fsum(fk, n), ct(k));
        lemma_fsum_scale(ct(k), fk, n);
        assert forall|j: int| 0 <= j < n implies #[trigger] fmul(ct(k), fk(j)) == g(j, k) by {
            lemma_round_trip_term(w, n, j, k, t);
            lemma_fmul_comm(ct(k), fk(j));
            lemma_fmul_assoc(x[j], fpow(fpow(w, k as nat), j as nat), ct(k));
        }
        lemma_fsum_ext(|j: int| fmul(ct(k), fk(j)), |j: int| g(j, k), n);
    }
    lemma_fsum_ext(|k: int| fmul(xx[k], ct(k)), |k: int| fsum(|j: int| g(j, k), n), n);
    lemma_fsum_swap(g, n, n);
    // sum_k g(j, k) = x[j] * n if j == t, else 0
    let inner = |j: int| fsum(|k: int| g(j, k), n);
    assert forall|j: int| 0 <= j < n implies
        #[trigger] inner(j) == (if j == t { fmul(x[t], n as int) } else { 0 }) by {
        let d = (j + (n - 1) * t) % (n as int);
        let z = fpow(w, d as nat);
        let zs = |k: int| fpow(z, k as nat);
        lemma_fsum_scale(x[j], zs, n);
        lemma_fsum_ext(|k: int| g(j, k), |k: int| fmul(x[j], zs(k)), n);
        assert(inner(j) == fsum(|k: int| g(j, k), n));
        assert(inner(j) == fmul(x[j], fsum(zs, n)));
        if j == t {
            assert(j + (n - 1) * t == n * t) by (nonlinear_arith)
                requires
                    j == t,
            ;
            vstd::arithmetic::div_mod::lemma_mod_multiples_basic(t, n as int);
            vstd::arithmetic::mul::lemma_mul_is_commutative(t, n as int);
            assert(d == 0);
            lemma_fpow_small(w);
            assert forall|k: int| 0 <= k < n implies #[trigger] fpow(z, k as nat) == 1int by {
                crate::field::lemma_fpow_one(k as nat);
            }
            lemma_fsum_ext(zs, |k: int| 1int, n);
            lemma_fsum_ones(n);
            vstd::arithmetic::div_mod::lemma_small_mod(n, P as nat);
            assert(fsum(zs, n) == n);
        } else {
            vstd::arithmetic::div_mod::lemma_fundamental_div_mod(j + (n - 1) * t, n as int);
            assert(d != 0) by {
                if d == 0 {
                    let q = (j + (n - 1) * t) / (n as int);
                    // j - t = n * (q - t), with |j - t| < n
                    assert(j - t == n * (q - t)) by (nonlinear_arith)
                        requires
                            j + (n - 1) * t == n * q,
                    ;
                    assert(false) by (nonlinear_arith)
                        requires
                            j - t == n * (q - t),
                            0 <= j < n,
                            0 <= t < n,
                            j != t,
                    ;
                }
            }
            lemma_geometric_zero(w, l, d as nat);
            assert(fsum(zs, n) == 0);
            lemma_fmul_comm(x[j], 0);
        }
    }
    lemma_fsum_single(inner, n, t);
    let pe = |j: int| fmul(xx[j], fpow(fpow(v, t as nat), j as nat));
    lemma_fsum_ext(pe, |k: int| fmul(xx[k], ct(k)), n);
    assert(dft(xx, v)[t] == fsum(pe, n));
    assert(fsum(|k: int| fsum(|j: int| g(j, k), n), n) == fsum(inner, n));
    assert(dft(xx, v)[t] == fmul(x[t], n as int));
    // (x[t] * n) * n^-1 = x[t]
    let ni = finv(n as int);
    lemma_fmul_assoc(x[t], n as int, ni);
    lemma_fmul_one(x[t]);
    assert(idft(xx, w)[t] == fmul(dft(xx, v)[t], ni));
}

/// Round trip on a coset: scaling by powers of `s`, transforming, inverting
/// the transform and scaling by powers of `s^-1` gives the input back.
pub proof fn lemma_coset_idft_dft(x: Seq<int>, s: int, w: int, l: nat)
    requires
        l <= 20,
        x.len() == pow2(l),
        in_field(x),
        0 <= w < P,
        is_primitive_root(w, x.len()),
        0 < s < P,
    ensures
        scaled(idft(dft(scaled(x, s), w), w), finv(s)) == x,
{
    let y = scaled(x, s);
    assert(in_field(y));
    lemma_idft_dft(y, w, l);
    crate::field::lemma_finv_exists(s);
    let si = finv(s);
    assert forall|i: int| 0 <= i < x.len() implies #[trigger] scaled(y, si)[i] == x[i] by {
        let a = fpow(s, i as nat);
        let b = fpow(si, i as nat);
        lemma_fmul_assoc(x[i], a, b);
        crate::field::lemma_fpow_of_fmul(s, si, i as nat);
        crate::field::lemma_fpow_one(i as nat);
        lemma_fmul_one(x[i]);
    }
    assert(scaled(y, si) =~= x);
}

/// Entry-wise product.
pub open spec fn pointwise(a: Seq<int>, b: Seq<int>) -> Seq<int> {
    Seq::new(a.len(), |k: int| fmul(a[k], b[k]))
}

/// Cyclic convolution: `c[t] = sum_j a[j] * b[(t - j) mod n]`.
pub open spec fn cyclic_conv(a: Seq<int>, b: Seq<int>) -> Seq<int> {
    Seq::new(
        a.len(),
        |t: int| fsum(|j: int| fmul(a[j], b[(t - j) % (a.len() as int)]), a.len()),
    )
}

/// The coefficients of the product of two polynomials, up to degree
/// `n - 1`: `c[t] = sum_{j <= t} a[j] * b[t - j]`.
pub open spec fn product_coeffs(a: Seq<int>, b: Seq<int>) -> Seq<int> {
    Seq::new(
        a.len(),
        |t: int| fsum(|j: int| if j <= t { fmul(a[j], b[t - j]) } else { 0 }, a.len()),
    )
}

/// A sum over `[0, n)` taken in rotated order is the same sum.
pub proof fn lemma_fsum_rotate(h: spec_fn(int) -> int, n: nat, j: int)
    requires
        0 <= j < n,
    ensures
        fsum(|t: int| h((t - j) % (n as int)), n) == fsum(h, n),
{
    let f = |t: int| h((t - j) % (n as int));
    let m = (n - j) as nat;
    lemma_fsum_halves(f, j as nat, m);
    lemma_fsum_ext(|i: int| f(i), f, n);
    lemma_fsum_halves(h, m, j as nat);
    lemma_fsum_ext(|i: int| h(i), h, n);
    assert forall|i: int| 0 <= i < m implies #[trigger] f(j + i) == h(i) by {
        vstd::arithmetic::div_mod::lemma_small_mod(i as nat, n);
    }
    lemma_fsum_ext(|i: int| f(j + i), h, m);
    assert forall|t: int| 0 <= t < j implies #[trigger] f(t) == h(m + t) by {
        vstd::arithmetic::div_mod::lemma_fundamental_div_mod_converse(t - j, n as int, -1, m + t);
    }
    lemma_fsum_ext(f, |t: int| h(m + t), j as nat);
    lemma_fadd_comm(fsum(f, j as nat), fsum(h, m));
}

/// `(a[j] x^j)(b[i] x^i) = (a[j] b[i]) x^(i+j)`.
proof fn lemma_term_product(aj: int, bi: int, x: int, j: nat, i: nat)
    ensures
        fmul(fmul(aj, fpow(x, j)), fmul(bi, fpow(x, i))) == fmul(fmul(aj, bi), fpow(x, i + j)),
{
    let xj = fpow(x, j);
    let xi = fpow(x, i);
    lemma_fpow_add(x, i, j);
    lemma_fmul_assoc(aj, xj, fmul(bi, xi));
    lemma_fmul_assoc(xj, bi, xi);
    lemma_fmul_comm(xj, bi);
    lemma_fmul_assoc(bi, xj, xi);
    lemma_fmul_comm(xj, xi);
    lemma_fmul_assoc(aj, bi, fmul(xi, xj));
}

/// At a point `x` with `x^n = 1`, the product of two polynomials' values is
/// the value of their cyclic convolution.
pub proof fn lemma_eval_mul(a: Seq<int>, b: Seq<int>, x: int)
    requires
        a.len() == b.len(),
        a.len() >= 1,
        fpow(x, a.len()) == 1,
    ensures
        fmul(poly_eval(a, x), poly_eval(b, x)) == poly_eval(cyclic_conv(a, b), x),
{
    let n = a.len();
    let ni = n as int;
    let fa = |j: int| fmul(a[j], fpow(x, j as nat));
    let fb = |i: int| fmul(b[i], fpow(x, i as nat));
    let bb = fsum(fb, n);
    let c = cyclic_conv(a, b);
    let g = |j: int, t: int| fmul(fmul(a[j], b[(t - j) % ni]), fpow(x, t as nat));
    // left side: sum_j sum_i fa(j) fb(i)
    lemma_fsum_scale(bb, fa, n);
    assert forall|j: int| 0 <= j < n implies #[trigger] fmul(bb, fa(j)) == fsum(|t: int| g(j, t), n) by {
        lemma_fmul_comm(bb, fa(j));
        lemma_fsum_scale(fa(j), fb, n);
        let hh = |i: int| fmul(fmul(a[j], b[i]), fpow(x, (i + j) as nat));
        assert forall|i: int| 0 <= i < n implies #[trigger] fmul(fa(j), fb(i)) == hh(i) by {
            lemma_term_product(a[j], b[i], x, j as nat, i as nat);
        }
        lemma_fsum_ext(|i: int| fmul(fa(j), fb(i)), hh, n);
        lemma_fsum_rotate(hh, n, j);
        assert forall|t: int| 0 <= t < n implies #[trigger] g(j, t) == hh((t - j) % ni) by {
            let r = (t - j) % ni;
            vstd::arithmetic::div_mod::lemma_fundamental_div_mod(t - j, ni);
            if t >= j {
                vstd::arithmetic::div_mod::lemma_small_mod((t - j) as nat, n);
            } else {
                vstd::arithmetic::div_mod::lemma_fundamental_div_mod_converse(t - j, ni, -1, t - j + ni);
                lemma_fpow_periodic(x, n, t as nat, 1);
            }
        }
        lemma_fsum_ext(|t: int| g(j, t), |t: int| hh((t - j) % ni), n);
    }
    lemma_fsum_ext(|j: int| fmul(bb, fa(j)), |j: int| fsum(|t: int| g(j, t), n), n);
    lemma_fmul_comm(fsum(fa, n), bb);
    // right side: sum_t c[t] x^t = sum_t sum_j g(j, t)
    assert forall|t: int| 0 <= t < n implies
        #[trigger] fmul(c[t], fpow(x, t as nat)) == fsum(|j: int| g(j, t), n) by {
        let ct = |j: int| fmul(a[j], b[(t - j) % ni]);
        lemma_fmul_comm(c[t], fpow(x, t as nat));
        lemma_fsum_scale(fpow(x, t as nat), ct, n);
        assert forall|j: int| 0 <= j < n implies #[trigger] fmul(fpow(x, t as nat), ct(j)) == g(j, t) by {
            lemma_fmul_comm(fpow(x, t as nat), ct(j));
        }
        lemma_fsum_ext(|j: int| fmul(fpow(x, t as nat), ct(j)), |j: int| g(j, t), n);
        assert(c[t] == fsum(ct, n));
    }
    lemma_fsum_ext(
        |t: int| fmul(c[t], fpow(x, t as nat)),
        |t: int| fsum(|j: int| g(j, t), n),
        n,
    );
    lemma_fsum_swap(g, n, n);
    assert(c.len() == n);
}

/// Convolution theorem: multiplying two transforms entry by entry and
/// inverting gives the cyclic convolution of the inputs.
pub proof fn lemma_convolution(a: Seq<int>, b: Seq<int>, w: int, l: nat)
    requires
        l <= 20,
        a.len() == pow2(l),
        b.len() == a.len(),
        0 <= w < P,
        is_primitive_root(w, a.len()),
    ensures
        idft(pointwise(dft(a, w), dft(b, w)), w) == cyclic_conv(a, b),
{
    let n = a.len();
    let c = cyclic_conv(a, b);
    lemma_pow2_pos(l);
    assert forall|k: int| 0 <= k < n implies #[trigger] pointwise(dft(a, w), dft(b, w))[k] == dft(c, w)[k] by {
        let x = fpow(w, k as nat);
        lemma_fpow_mul(w, k as nat, n);
        lemma_fpow_mul(w, n, k as nat);
        crate::field::lemma_fpow_one(k as nat);
        assert(k * n == n * k) by (nonlinear_arith);
        lemma_eval_mul(a, b, x);
    }
    assert(pointwise(dft(a, w), dft(b, w)) =~= dft(c, w));
    assert(in_field(c));
    lemma_idft_dft(c, w, l);
}

/// Without wraparound (`a[j] * b[k] = 0` whenever `j + k >= n`), the cyclic
/// convolution is the product of the two polynomials.
pub proof fn lemma_conv_no_wrap(a: Seq<int>, b: Seq<int>)
    requires
        a.len() == b.len(),
        forall|j: int, k: int|
            0 <= j < a.len() && 0 <= k < a.len() && j + k >= a.len() ==> #[trigger] fmul(a[j], b[k]) == 0,
    ensures
        cyclic_conv(a, b) == product_coeffs(a, b),
{
    let n = a.len();
    let ni = n as int;
    assert forall|t: int| 0 <= t < n implies #[trigger] cyclic_conv(a, b)[t] == product_coeffs(a, b)[t] by {
        let f1 = |j: int| fmul(a[j], b[(t - j) % ni]);
        let f2 = |j: int| if j <= t { fmul(a[j], b[t - j]) } else { 0 };
        assert forall|j: int| 0 <= j < n implies #[trigger] f1(j) == f2(j) by {
            if j <= t {
                vstd::arithmetic::div_mod::lemma_small_mod((t - j) as nat, n);
            } else {
                vstd::arithmetic::div_mod::lemma_fundamental_div_mod_converse(t - j, ni, -1, t - j + ni);
                assert(fmul(a[j], b[t - j + ni]) == 0);
            }
        }
        lemma_fsum_ext(f1, f2, n);
    }
    assert(cyclic_conv(a, b) =~= product_coeffs(a, b));
}

/// Convolution theorem for zero-padded inputs: the inverse transform of the
/// entry-wise product of the transforms is the product polynomial.
pub proof fn lemma_convolution_product(a: Seq<int>, b: Seq<int>, w: int, l: nat)
    requires
        l <= 20,
        a.len() == pow2(l),
        b.len() == a.len(),
        0 <= w < P,
        is_primitive_root(w, a.len()),
        forall|j: int, k: int|
            0 <= j < a.len() && 0 <= k < a.len() && j + k >= a.len() ==> #[trigger] fmul(a[j], b[k]) == 0,
    ensures
        idft(pointwise(dft(a, w), dft(b, w)), w) == product_coeffs(a, b),
{
    lemma_convolution(a, b, w, l);
    lemma_conv_no_wrap(a, b);
}

/// A single coefficient is its own transform, and the constant polynomial's
/// value everywhere.
pub proof fn lemma_single_point(v: int, w: int, x: int)
    requires
        0 <= v < P,
    ensures
        poly_eval(seq![v], x) == v,
        dft(seq![v], w) == seq![v],
{
    let f = |j: int| fmul(seq![v][j], fpow(x, j as nat));
    assert(fsum(f, 1) == fadd(fsum(f, 0), f(0)));
    lemma_fmul_one(v);
    lemma_fadd_zero(v);
    let g = |j: int| fmul(seq![v][j], fpow(fpow(w, 0), j as nat));
    assert(fsum(g, 1) == fadd(fsum(g, 0), g(0)));
    assert(dft(seq![v], w) =~= seq![v]);
}

} // verus!
