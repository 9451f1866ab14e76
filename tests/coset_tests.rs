use vss::coset::Coset;
use vss::domain::Radix2Domain;
use vss::field::Fp;

/// A small deterministic generator of field elements for the tests.
struct Lcg(u64);

impl Lcg {
    fn next(&mut self) -> Fp {
        self.0 = self.0.wrapping_mul(6364136223846793005).wrapping_add(1442695040888963407);
        Fp::from_int(self.0 >> 33)
    }

    fn next_nonzero(&mut self) -> Fp {
        loop {
            let x = self.next();
            if !x.is_zero() {
                return x;
            }
        }
    }
}

#[test]
fn fft_and_ifft() {
    let mut rng = Lcg(1);
    let mut a: Vec<Fp> = vec![];
    let mut b: Vec<Fp> = vec![];
    for _i in 0..16 {
        a.push(rng.next());
        b.push(rng.next());
    }
    for _i in 16..32 {
        a.push(Fp::from_int(0));
        b.push(Fp::from_int(0));
    }
    let mut a_times_b: Vec<Fp> = vec![];
    for _i in 0..32 {
        a_times_b.push(Fp::from_int(0));
    }
    for i in 0..16usize {
        for j in 0..16usize {
            a_times_b[i + j] = a_times_b[i + j].add(a[i].mul(b[j]));
        }
    }
    let domain = Radix2Domain::new(32, Fp::get_generator(32));
    domain.fft(&mut a);
    domain.fft(&mut b);
    for i in 0..a.len() {
        a[i] = a[i].mul(b[i]);
    }
    domain.ifft(&mut a);
    assert_eq!(&a, &a_times_b);
    let shift = rng.next_nonzero();
    domain.coset_fft(&mut a, shift);
    domain.coset_ifft(&mut a, shift);
    assert_eq!(&a, &a_times_b);
}

#[test]
fn all_elements() {
    let r = Lcg(7).next_nonzero();
    let coset = Coset::new(32, r);
    let elements = coset.all_elements();
    assert_eq!(elements[0], r);
    let omega = coset.generator();
    for i in 0..elements.len() - 1 {
        assert_eq!(elements[i].mul(omega), elements[i + 1]);
    }
    assert_eq!(elements.last().unwrap().mul(omega), elements[0]);
}

#[test]
fn pow() {
    let shift = Lcg(11).next_nonzero();
    let coset = Coset::new(32, shift);
    let coset_square = coset.pow(2);
    for (idx, i) in coset_square.all_elements().iter().enumerate() {
        assert_eq!(*i, coset.all_elements()[idx].pow(2));
        assert_eq!(*i, coset.all_elements()[idx + coset_square.size()].pow(2));
    }
    let coset_exp6 = coset.pow(12);
    for (idx, i) in coset.all_elements().iter().enumerate() {
        assert_eq!(i.pow(12), coset_exp6.all_elements()[idx % coset_exp6.size()]);
    }
    for r in [7usize, 40, 96, 1000001] {
        let coset_r = coset.pow(r);
        for (idx, i) in coset.all_elements().iter().enumerate() {
            assert_eq!(i.pow(r), coset_r.all_elements()[idx % coset_r.size()]);
        }
    }
}
