use vss::coset::Coset;
use vss::field::{Fp, P};

fn fps(xs: &[u64]) -> Vec<Fp> {
    xs.iter().map(|&x| Fp::from_int(x)).collect()
}

#[test]
fn coset_fft_exact_values() {
    let coset = Coset::new(4, Fp::from_int(5));
    let evals = coset.fft(&fps(&[1, 2, 3]));
    assert_eq!(evals, fps(&[86, 1042607, 66, 6297278]));
    let back = coset.ifft(&evals);
    assert_eq!(back, fps(&[1, 2, 3, 0]));
}

#[test]
fn coset_fft_evaluates_at_elements() {
    let coset = Coset::new(16, Fp::from_int(9));
    let coeff = fps(&[4, 0, 7, 1, 1, 8]);
    let evals = coset.fft(&coeff);
    let points = coset.all_elements();
    for i in 0..16 {
        let mut v = Fp::from_int(0);
        for j in (0..coeff.len()).rev() {
            v = v.mul(points[i]).add(coeff[j]);
        }
        assert_eq!(evals[i], v);
    }
}

#[test]
fn round_trip_on_cosets() {
    for (order, shift) in [(1usize, 3u64), (2, 1), (8, 77), (64, P - 2)] {
        let coset = Coset::new(order, Fp::from_int(shift));
        let coeff: Vec<Fp> = (0..order as u64).map(|i| Fp::from_int(i * i + 3)).collect();
        assert_eq!(coset.ifft(&coset.fft(&coeff)), coeff);
    }
}

#[test]
fn single_element_domain() {
    let coset = Coset::new(1, Fp::from_int(42));
    assert_eq!(coset.ifft(&fps(&[17])), fps(&[17]));
    assert_eq!(coset.fft(&fps(&[17])), fps(&[17]));
    let big = Coset::new(8, Fp::from_int(42));
    assert_eq!(big.ifft(&fps(&[17])), fps(&[17]));
}

#[test]
fn element_lookup_matches_enumeration() {
    let coset = Coset::new(16, Fp::from_int(123));
    let all = coset.all_elements();
    let all_inv = coset.all_elements_inv();
    for i in 0..16 {
        assert_eq!(coset.element_at(i), all[i]);
        assert_eq!(coset.element_inv_at(i), all_inv[i]);
        assert_eq!(all[i].mul(all_inv[i]).value(), 1);
    }
    assert_eq!(coset.shift(), Fp::from_int(123));
    assert_eq!(coset.order(), 16);
    assert_eq!(coset.size(), 16);
}

#[test]
fn independent_cosets_agree() {
    let a = Coset::new(64, Fp::from_int(10));
    let b = Coset::new(64, Fp::from_int(10));
    assert_eq!(a.generator(), b.generator());
    assert_eq!(a.all_elements(), b.all_elements());
    let c = Coset::new(64, Fp::from_int(11));
    assert_eq!(a.generator(), c.generator());
}

#[test]
fn folding_halves_the_order() {
    let coset = Coset::new(32, Fp::from_int(6));
    let folded = coset.pow(2);
    assert_eq!(folded.size(), 16);
    assert_eq!(folded.generator(), coset.generator().pow(2));
    assert_eq!(folded.shift(), Fp::from_int(36));
    assert_eq!(coset.pow(12).size(), 8);
    assert_eq!(coset.pow(32).size(), 1);
    assert_eq!(coset.pow(32).generator().value(), 1);
    for i in 0..32 {
        assert_eq!(folded.all_elements()[i % 16], coset.all_elements()[i].pow(2));
    }
}
