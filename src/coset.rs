//! A coset `{ shift * omega^i }` of a power-of-two subgroup, with its
//! elements and their inverses computed once and shared by every clone, and
//! the folding map that raises every element to a power.
use std::rc::Rc;
use vstd::prelude::*;
use vstd::arithmetic::power2::*;
use crate::field::{
    Fp, P, finv, fmul, fpow, is_primitive_root, root_of_unity, lemma_fp_range, lemma_fpow_small,
    lemma_fmul_one, lemma_fmul_comm, lemma_fmul_assoc, lemma_fpow_add, lemma_fpow_mul,
    lemma_fpow_of_fmul, lemma_fpow_one, lemma_fpow_neg_one_odd, lemma_fpow_range, lemma_finv_exists,
};
use crate::ntt::{poly_eval, dft, idft, scaled, in_field, lemma_dft_scaled, lemma_poly_eval_padded, lemma_coset_idft_dft};
use crate::domain::{Radix2Domain, is_order, vals, lemma_order_bound, lemma_root_nonzero};

verus! {

broadcast use lemma_fp_range;

/// The number of times two divides `n`, for `n > 0`.
pub open spec fn val2(n: nat) -> nat
    decreases n,
{
    if n == 0 || n % 2 == 1 {
        0
    } else {
        1 + val2(n / 2)
    }
}

/// The largest power of two that divides `n`, for `n > 0`.
pub open spec fn lowbit(n: nat) -> nat {
    pow2(val2(n))
}

/// `n` is `lowbit(n)` times an odd number.
pub proof fn lemma_lowbit(n: nat)
    requires
        n > 0,
    ensures
        n % lowbit(n) == 0,
        (n / lowbit(n)) % 2 == 1,
        n == lowbit(n) * (n / lowbit(n)),
    decreases n,
{
    lemma2_to64();
    if n % 2 == 0 {
        lemma_lowbit(n / 2);
        let h = n / 2;
        let lb = lowbit(h);
        let o = h / lb;
        lemma_pow2_unfold(val2(n));
        assert(lowbit(n) == 2 * lb);
        assert(n == (2 * lb) * o) by (nonlinear_arith)
            requires
                h == lb * o,
                n == 2 * h,
        ;
        lemma_pow2_pos(val2(h));
        vstd::arithmetic::div_mod::lemma_div_multiples_vanish(o as int, (2 * lb) as int);
        vstd::arithmetic::div_mod::lemma_mod_multiples_basic(o as int, (2 * lb) as int);
        vstd::arithmetic::mul::lemma_mul_is_commutative(o as int, (2 * lb) as int);
    }
}

/// Raising a generator of the subgroup of order `n` to the power
/// `lb * odd`, with `lb` a power of two that divides `n` and `odd` odd,
/// gives a generator of the subgroup of order `n / lb`.
proof fn lemma_fold_domain(w: int, n: nat, index: nat, lb: nat, odd: nat)
    requires
        is_order(n),
        is_primitive_root(w, n),
        index == lb * odd,
        odd % 2 == 1,
        lb == pow2(val2(index)),
        lb <= n,
    ensures
        lb > 0,
        n % lb == 0,
        is_order(n / lb),
        is_primitive_root(fpow(w, index), n / lb),
{
    let k = choose|k: nat| k <= 20 && pow2(k) == n;
    let v = val2(index);
    lemma_pow2_pos(v);
    if v > k {
        lemma_pow2_strictly_increases(k, v);
    }
    let d = (k - v) as nat;
    lemma_pow2_adds(d, v);
    let m = pow2(d);
    assert(n == m * lb);
    vstd::arithmetic::div_mod::lemma_div_multiples_vanish(m as int, lb as int);
    vstd::arithmetic::div_mod::lemma_mod_multiples_basic(m as int, lb as int);
    assert(n / lb == m);
    assert(d <= 20 && pow2(d) == m);
    // (w^index)^m = (w^n)^odd = 1
    assert(index * m == n * odd) by (nonlinear_arith)
        requires
            index == lb * odd,
            n == m * lb,
    ;
    lemma_fpow_mul(w, index, m);
    lemma_fpow_mul(w, n, odd);
    lemma_fpow_one(odd);
    if m >= 2 {
        lemma_pow2_pos(d);
        lemma2_to64();
        if d == 0 {
            assert(false);
        }
        lemma_pow2_unfold(d);
        let h = pow2((d - 1) as nat);
        assert(m / 2 == h);
        assert(n == 2 * (h * lb)) by (nonlinear_arith)
            requires
                n == m * lb,
                m == 2 * h,
        ;
        vstd::arithmetic::div_mod::lemma_div_multiples_vanish((h * lb) as int, 2);
        assert(n / 2 == h * lb);
        assert(index * h == (h * lb) * odd) by (nonlinear_arith)
            requires
                index == lb * odd,
        ;
        assert(n >= 2) by (nonlinear_arith)
            requires
                n == m * lb,
                m >= 2,
                lb >= 1,
        ;
        lemma_fpow_mul(w, index, h);
        lemma_fpow_mul(w, n / 2, odd);
        lemma_fpow_neg_one_odd(odd);
    }
}

/// A power of an invertible element is nonzero.
proof fn lemma_fold_shift(s: int, t: int, e: nat)
    requires
        fmul(s, t) == 1,
    ensures
        fpow(s, e) != 0,
{
    lemma_fpow_of_fmul(s, t, e);
    lemma_fpow_one(e);
}

/// Builds `[shift * omega^i for i in 0..order]` by repeated multiplication.
fn coset_elements(order: usize, shift: Fp, omega: Fp) -> (r: Vec<Fp>)
    ensures
        r@.len() == order,
        forall|i: int| 0 <= i < order ==> #[trigger] r@[i]@ == fmul(shift@, fpow(omega@, i as nat)),
{
    let mut r: Vec<Fp> = Vec::new();
    let mut el = shift;
    proof {
        lemma_fpow_small(omega@);
        lemma_fmul_one(shift@);
    }
    for i in 0..order
        invariant
            r@.len() == i,
            el@ == fmul(shift@, fpow(omega@, i as nat)),
            forall|j: int| 0 <= j < i ==> #[trigger] r@[j]@ == fmul(shift@, fpow(omega@, j as nat)),
    {
        r.push(el);
        proof {
            lemma_fmul_assoc(shift@, fpow(omega@, i as nat), omega@);
            lemma_fmul_comm(fpow(omega@, i as nat), omega@);
        }
        el = el.mul(omega);
    }
    r
}

/// `(s * w^i) * (t * v^i) = 1` when `s * t = 1` and `w * v = 1`.
proof fn lemma_inverse_element(s: int, t: int, w: int, v: int, i: nat)
    requires
        0 <= t < P,
        fmul(s, t) == 1,
        fmul(w, v) == 1,
    ensures
        fmul(fmul(s, fpow(w, i)), fmul(t, fpow(v, i))) == 1,
{
    let a = fpow(w, i);
    let b = fpow(v, i);
    lemma_fmul_assoc(s, a, fmul(t, b));
    lemma_fmul_assoc(a, t, b);
    lemma_fmul_comm(a, t);
    lemma_fmul_assoc(t, a, b);
    lemma_fmul_assoc(s, t, fmul(a, b));
    lemma_fpow_of_fmul(w, v, i);
    lemma_fpow_one(i);
    lemma_fmul_one(1);
}

/// Builds the inverses of `coset_elements(order, shift, omega)`.
fn coset_elements_inv(order: usize, shift: Fp, omega: Fp) -> (r: Vec<Fp>)
    requires
        shift@ != 0,
        is_order(order as nat),
        is_primitive_root(omega@, order as nat),
    ensures
        r@.len() == order,
        forall|i: int|
            0 <= i < order ==> fmul(fmul(shift@, fpow(omega@, i as nat)), #[trigger] r@[i]@) == 1,
{
    let mut r: Vec<Fp> = Vec::new();
    let shift_inv = shift.inverse();
    let mut el = shift_inv;
    proof {
        lemma_order_bound(order as nat);
    }
    let omega_inv = omega.pow(order - 1);
    proof {
        lemma_fpow_small(omega@);
        lemma_fpow_small(omega_inv@);
        lemma_fpow_add(omega@, 1, (order - 1) as nat);
        lemma_fmul_one(shift_inv@);
    }
    for i in 0..order
        invariant
            r@.len() == i,
            fmul(shift@, shift_inv@) == 1,
            fmul(omega@, omega_inv@) == 1,
            el@ == fmul(shift_inv@, fpow(omega_inv@, i as nat)),
            forall|j: int|
                0 <= j < i ==> fmul(fmul(shift@, fpow(omega@, j as nat)), #[trigger] r@[j]@) == 1,
    {
        proof {
            lemma_inverse_element(shift@, shift_inv@, omega@, omega_inv@, i as nat);
        }
        r.push(el);
        proof {
            lemma_fmul_assoc(shift_inv@, fpow(omega_inv@, i as nat), omega_inv@);
            lemma_fmul_comm(fpow(omega_inv@, i as nat), omega_inv@);
        }
        el = el.mul(omega_inv);
    }
    r
}

/// The coset `{ shift * omega^i : 0 <= i < order }`. Its elements and their
/// inverses are computed when it is built and shared by its clones.
#[derive(Clone, Debug)]
pub struct Coset {
    elements: Rc<Vec<Fp>>,
    elements_inv: Rc<Vec<Fp>>,
    fft_eval_domain: Radix2Domain,
    shift: Fp,
}

impl Coset {
    pub closed spec fn order_spec(&self) -> nat {
        self.fft_eval_domain.order_spec()
    }

    pub closed spec fn generator_spec(&self) -> int {
        self.fft_eval_domain.omega_spec()
    }

    pub closed spec fn shift_spec(&self) -> int {
        self.shift@
    }

    pub closed spec fn domain_spec(&self) -> Radix2Domain {
        self.fft_eval_domain
    }

    /// The `i`-th element, `shift * omega^i`.
    pub open spec fn element(&self, i: int) -> int {
        fmul(self.shift_spec(), fpow(self.generator_spec(), i as nat))
    }

    pub closed spec fn caches_ok(&self) -> bool {
        &&& self.elements@.len() == self.order_spec()
        &&& self.elements_inv@.len() == self.order_spec()
        &&& forall|i: int| 0 <= i < self.order_spec() ==> #[trigger] self.elements@[i]@ == self.element(i)
        &&& forall|i: int| 0 <= i < self.order_spec()
                ==> fmul(self.element(i), #[trigger] self.elements_inv@[i]@) == 1
    }

    /// A subgroup of power-of-two order, a nonzero shift, and element lists
    /// that match them.
    pub open spec fn wf(&self) -> bool {
        &&& self.domain_spec().wf()
        &&& self.domain_spec().order_spec() == self.order_spec()
        &&& self.domain_spec().omega_spec() == self.generator_spec()
        &&& self.shift_spec() != 0
        &&& 0 <= self.shift_spec() < P
        &&& 0 <= self.generator_spec() < P
        &&& self.caches_ok()
    }

    fn build(domain: Radix2Domain, shift: Fp) -> (r: Coset)
        requires
            domain.wf(),
            shift@ != 0,
        ensures
            r.wf(),
            r.domain_spec() == domain,
            r.shift_spec() == shift@,
    {
        let order = domain.order();
        let omega = domain.omega();
        let elements = coset_elements(order, shift, omega);
        let elements_inv = coset_elements_inv(order, shift, omega);
        Coset {
            elements: Rc::new(elements),
            elements_inv: Rc::new(elements_inv),
            fft_eval_domain: domain,
            shift,
        }
    }

    /// The coset of `shift` over the subgroup of order `order`, generated by
    /// the field's fixed root of unity of that order.
    pub fn new(order: usize, shift: Fp) -> (r: Coset)
        requires
            is_order(order as nat),
            shift@ != 0,
        ensures
            r.wf(),
            r.order_spec() == order,
            r.generator_spec() == root_of_unity(order as nat),
            r.shift_spec() == shift@,
    {
        let omega = Fp::get_generator(order);
        Coset::build(Radix2Domain::new(order, omega), shift)
    }

    pub fn order(&self) -> (r: usize)
        requires
            self.wf(),
        ensures
            r == self.order_spec(),
    {
        self.fft_eval_domain.order()
    }

    pub fn size(&self) -> (r: usize)
        requires
            self.wf(),
        ensures
            r == self.order_spec(),
    {
        self.fft_eval_domain.order()
    }

    pub fn generator(&self) -> (r: Fp)
        requires
            self.wf(),
        ensures
            r@ == self.generator_spec(),
    {
        self.fft_eval_domain.omega()
    }

    pub fn shift(&self) -> (r: Fp)
        ensures
            r@ == self.shift_spec(),
    {
        self.shift
    }

    pub fn element_at(&self, index: usize) -> (r: Fp)
        requires
            self.wf(),
            index < self.order_spec(),
        ensures
            r@ == self.element(index as int),
    {
        self.elements[index]
    }

    /// The inverse of the `index`-th element.
    pub fn element_inv_at(&self, index: usize) -> (r: Fp)
        requires
            self.wf(),
            index < self.order_spec(),
        ensures
            fmul(self.element(index as int), r@) == 1,
    {
        self.elements_inv[index]
    }

    pub fn all_elements(&self) -> (r: Vec<Fp>)
        requires
            self.wf(),
        ensures
            r@.len() == self.order_spec(),
            forall|i: int| 0 <= i < self.order_spec() ==> #[trigger] r@[i]@ == self.element(i),
    {
        let v: &Vec<Fp> = &self.elements;
        v.clone()
    }

    /// The coset that raising every element to the power `index` maps this
    /// one onto: order `order / lowbit(index)`, generator `omega^index`,
    /// shift `shift^index`, with element lists of its own.
    pub fn pow(&self, index: usize) -> (r: Coset)
        requires
            self.wf(),
            index > 0,
            lowbit(index as nat) <= self.order_spec(),
        ensures
            r.wf(),
            r.order_spec() == self.order_spec() / lowbit(index as nat),
            r.generator_spec() == fpow(self.generator_spec(), index as nat),
            r.shift_spec() == fpow(self.shift_spec(), index as nat),
    {
        let mut lb: usize = 1;
        let mut odd: usize = index;
        let ghost mut v: nat = 0;
        proof {
            lemma2_to64();
        }
        while odd % 2 == 0
            invariant
                odd > 0,
                index == lb * odd,
                lb == pow2(v),
                val2(index as nat) == v + val2(odd as nat),
            decreases odd,
        {
            proof {
                lemma_pow2_unfold(v + 1);
                assert(index == (2 * lb) * (odd / 2)) by (nonlinear_arith)
                    requires
                        index == lb * odd,
                        odd % 2 == 0,
                ;
                assert(2 * lb <= index) by (nonlinear_arith)
                    requires
                        index == (2 * lb) * (odd / 2),
                        odd / 2 > 0,
                ;
            }
            lb = 2 * lb;
            odd = odd / 2;
            proof {
                v = v + 1;
            }
        }
        proof {
            assert(lb == lowbit(index as nat));
        }
        proof {
            lemma_order_bound(self.order_spec());
        }
        let order = self.order();
        let omega = self.generator().pow(index);
        let shift = self.shift.pow(index);
        proof {
            lemma_finv_exists(self.shift_spec());
            lemma_fold_domain(self.generator_spec(), order as nat, index as nat, lb as nat, odd as nat);
            lemma_fold_shift(self.shift_spec(), finv(self.shift_spec()), index as nat);
        }
        Coset::build(Radix2Domain::new(order / lb, omega), shift)
    }

    /// The values of the polynomial with coefficients `coeff` (padded with
    /// zeros to the coset's order) at the coset's elements, in index order.
    pub fn fft(&self, coeff: &Vec<Fp>) -> (r: Vec<Fp>)
        requires
            self.wf(),
            coeff@.len() <= self.order_spec(),
        ensures
            r@.len() == self.order_spec(),
            forall|k: int| 0 <= k < self.order_spec()
                ==> (#[trigger] r@[k])@ == poly_eval(vals(coeff@), self.element(k)),
    {
        let mut a = coeff.clone();
        let n = self.size() - a.len();
        let ghost c = vals(coeff@);
        for _i in 0..n
            invariant
                a@.len() == coeff@.len() + _i,
                a@.len() + n - _i == self.order_spec(),
                forall|i: int| 0 <= i < coeff@.len() ==> #[trigger] a@[i] == coeff@[i],
                forall|i: int| coeff@.len() <= i < a@.len() ==> (#[trigger] a@[i])@ == 0,
        {
            a.push(Fp::from_int(0));
        }
        let ghost padded = vals(a@);
        self.fft_eval_domain.coset_fft(&mut a, self.shift);
        proof {
            assert forall|k: int| 0 <= k < self.order_spec()
                implies (#[trigger] a@[k])@ == poly_eval(c, self.element(k)) by {
                assert(vals(a@)[k] == a@[k]@);
                lemma_dft_scaled(padded, self.shift@, self.generator_spec(), k as nat);
                lemma_poly_eval_padded(c, padded, self.element(k));
            }
        }
        a
    }

    /// The coefficients of the polynomial that takes the values `evals` at
    /// the coset's elements. A single value is returned as it is.
    pub fn ifft(&self, evals: &Vec<Fp>) -> (r: Vec<Fp>)
        requires
            self.wf(),
            evals@.len() == 1 || evals@.len() == self.order_spec(),
        ensures
            evals@.len() == 1 ==> r@ == evals@,
            r@.len() == evals@.len(),
            evals@.len() == self.order_spec() && evals@.len() != 1
                ==> vals(r@) == scaled(idft(vals(evals@), self.generator_spec()), finv(self.shift_spec())),
    {
        if evals.len() == 1 {
            return vec![evals[0]];
        }
        let mut a = evals.clone();
        self.fft_eval_domain.coset_ifft(&mut a, self.shift);
        a
    }

    pub fn all_elements_inv(&self) -> (r: Vec<Fp>)
        requires
            self.wf(),
        ensures
            r@.len() == self.order_spec(),
            forall|i: int| 0 <= i < self.order_spec() ==> fmul(self.element(i), #[trigger] r@[i]@) == 1,
    {
        let v: &Vec<Fp> = &self.elements_inv;
        v.clone()
    }
}

/// Enumeration: `all_elements` and `element_at` both give `element(i)`;
/// each element times the generator is the next one, and the last one times
/// the generator is the first.
pub proof fn lemma_elements_cycle(c: Coset, i: int)
    requires
        c.wf(),
        0 <= i < c.order_spec(),
    ensures
        i + 1 < c.order_spec() ==> fmul(c.element(i), c.generator_spec()) == c.element(i + 1),
        i + 1 == c.order_spec() ==> fmul(c.element(i), c.generator_spec()) == c.element(0),
        c.element(0) == c.shift_spec(),
{
    let w = c.generator_spec();
    let s = c.shift_spec();
    lemma_fpow_small(w);
    lemma_fmul_one(s);
    lemma_fmul_assoc(s, fpow(w, i as nat), w);
    lemma_fmul_comm(fpow(w, i as nat), w);
    assert(fpow(w, (i + 1) as nat) == fmul(w, fpow(w, i as nat)));
}

/// Folding: raising the `i`-th element of a coset to the power `index`
/// gives the element at `i mod order'` of the coset that `pow(index)`
/// returns, whose order, generator and shift are `order'`, `omega^index`
/// and `shift^index`.
pub proof fn lemma_fold_elements(c: Coset, f: Coset, index: nat, i: int)
    requires
        c.wf(),
        f.wf(),
        index > 0,
        lowbit(index) <= c.order_spec(),
        f.order_spec() == c.order_spec() / lowbit(index),
        f.generator_spec() == fpow(c.generator_spec(), index),
        f.shift_spec() == fpow(c.shift_spec(), index),
        0 <= i < c.order_spec(),
    ensures
        f.element(i % (f.order_spec() as int)) == fpow(c.element(i), index),
{
    let n = c.order_spec();
    let w = c.generator_spec();
    let s = c.shift_spec();
    let m = f.order_spec();
    let lb = lowbit(index);
    lemma_lowbit(index);
    let odd = index / lb;
    lemma_order_bound(m);
    let q = i / (m as int);
    let r = i % (m as int);
    vstd::arithmetic::div_mod::lemma_fundamental_div_mod(i, m as int);
    assert(q >= 0) by (nonlinear_arith)
        requires
            i >= 0,
            m > 0,
            q == i / (m as int),
    ;
    lemma_fold_domain(w, n, index, lb, odd);
    assert(n == m * lb) by {
        vstd::arithmetic::div_mod::lemma_fundamental_div_mod(n as int, lb as int);
    }
    // i * index == r * index + n * (q * odd)
    assert(i * index == index * r + n * (q * odd)) by (nonlinear_arith)
        requires
            i == m * q + r,
            index == lb * odd,
            n == m * lb,
    ;
    lemma_fpow_of_fmul(s, fpow(w, i as nat), index);
    lemma_fpow_mul(w, i as nat, index);
    lemma_fpow_mul(w, index, r as nat);
    lemma_fpow_add(w, (index * r) as nat, (n * (q * odd)) as nat);
    lemma_fpow_mul(w, n, (q * odd) as nat);
    lemma_fpow_one((q * odd) as nat);
    lemma_fpow_range(w, (index * r) as nat);
    lemma_fmul_one(fpow(w, (index * r) as nat));
    lemma_fmul_comm(index as int, r);
    vstd::arithmetic::mul::lemma_mul_is_commutative(i, index as int);
}

/// Determinism: two cosets of one order built by `new` have one generator,
/// and with one shift they have the same elements.
pub proof fn lemma_same_order_same_domain(c1: Coset, c2: Coset, i: int)
    requires
        c1.order_spec() == c2.order_spec(),
        c1.generator_spec() == root_of_unity(c1.order_spec()),
        c2.generator_spec() == root_of_unity(c2.order_spec()),
    ensures
        c1.generator_spec() == c2.generator_spec(),
        c1.shift_spec() == c2.shift_spec() ==> c1.element(i) == c2.element(i),
{
}

/// Round trip: `ifft` applied to the values that `fft` gives for
/// coefficients `x` (as many as the order) returns `x`.
pub proof fn lemma_fft_round_trip(c: Coset, x: Seq<int>)
    requires
        c.wf(),
        x.len() == c.order_spec(),
        in_field(x),
    ensures
        scaled(
            idft(Seq::new(x.len(), |k: int| poly_eval(x, c.element(k))), c.generator_spec()),
            finv(c.shift_spec()),
        ) == x,
{
    let n = c.order_spec();
    let w = c.generator_spec();
    let s = c.shift_spec();
    let ev = Seq::new(x.len(), |k: int| poly_eval(x, c.element(k)));
    assert forall|k: int| 0 <= k < n implies #[trigger] ev[k] == dft(scaled(x, s), w)[k] by {
        lemma_dft_scaled(x, s, w, k as nat);
    }
    assert(ev =~= dft(scaled(x, s), w));
    let l = choose|l: nat| l <= 20 && pow2(l) == n;
    lemma_coset_idft_dft(x, s, w, l);
}

} // verus!
