use vss::field::{Fp, P};

#[test]
fn from_int_reduces() {
    assert_eq!(Fp::from_int(P).value(), 0);
    assert_eq!(Fp::from_int(P + 5).value(), 5);
    assert!(Fp::from_int(P).is_zero());
}

#[test]
fn arithmetic_values() {
    let a = Fp::from_int(P - 1);
    let b = Fp::from_int(3);
    assert_eq!(a.add(b).value(), 2);
    assert_eq!(b.sub(a).value(), 4);
    assert_eq!(a.mul(a).value(), 1);
    assert_eq!(b.neg().value(), P - 3);
    assert_eq!(b.pow(7).value(), 2187);
    assert_eq!(b.pow(0).value(), 1);
}

#[test]
fn inverse_values() {
    assert_eq!(Fp::from_int(2).inverse().value(), 3670017);
    assert_eq!(Fp::from_int(5).inverse().value(), 4404020);
    for k in [1u64, 2, 3, 12345, P - 1] {
        let x = Fp::from_int(k);
        assert_eq!(x.mul(x.inverse()).value(), 1);
    }
}

#[test]
fn generators_have_their_order() {
    assert_eq!(Fp::get_generator(1).value(), 1);
    assert_eq!(Fp::get_generator(2).value(), P - 1);
    assert_eq!(Fp::get_generator(4).value(), 2306278);
    assert_eq!(Fp::get_generator(32).value(), 7026628);
    let w = Fp::get_generator(1 << 20);
    assert_eq!(w.pow(1 << 19).value(), P - 1);
    assert_eq!(w.pow(1 << 20).value(), 1);
}
