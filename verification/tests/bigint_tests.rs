use exercises::bigint::{BigInt, Error};

#[test]
fn add_test() {
    let b1 = BigInt::from_str("108");
    let b2 = BigInt::from_str("99");
    let b3 = b1.add(&b2);
    assert_eq!(b3.into_str(), "207");

    let b1 = BigInt::from_str("999");
    let b2 = BigInt::from_str("1");
    let b3 = b1.add(&b2);
    assert_eq!(b3.into_str(), "1000");

    let b1 = BigInt::from_str("89898989");
    let b2 = BigInt::from_str("11111111");
    let b3 = b1.add(&b2);
    assert_eq!(b3.into_str(), "101010100");
}

#[test]
fn sub_test() {
    let b1 = BigInt::from_str("101");
    let b2 = BigInt::from_str("9");
    let b3 = b1.sub(&b2);
    assert_eq!(b3.into_str(), "92");

    let b1 = BigInt::from_str("999");
    let b2 = BigInt::from_str("1999");
    let b3 = b1.sub(&b2);
    assert_eq!(b3.into_str(), "-1000");

    let b1 = BigInt::from_str("-100");
    let b2 = BigInt::from_str("-100");
    let b3 = b1.sub(&b2);
    assert_eq!(b3.into_str(), "0");
}

#[test]
fn mul_test() {
    let b1 = BigInt::from_str("2048");
    let b2 = BigInt::from_str("2048");
    let b3 = b1.mul(&b2);
    assert_eq!(b3.into_str(), "4194304");

    let b1 = BigInt::from_str("10111");
    let b2 = BigInt::from_str("11101");
    let b3 = b1.mul(&b2);
    assert_eq!(b3.into_str(), "112242211");

    let b1 = BigInt::from_str("340282366920938463463374607431768211455");
    let b2 = BigInt::from_str("340282366920938463463374607431768211455");
    let b3 = b1.mul(&b2);
    assert_eq!(
        b3.into_str(),
        "115792089237316195423570985008687907852589419931798687112530834793049593217025"
    );
}

#[test]
fn div_test() {
    let b1 = BigInt::from_str("2048");
    let b2 = BigInt::from_str("1024");
    let b3 = b1.div(&b2);
    assert_eq!(b3.into_str(), "2");

    let b1 = BigInt::from_str("1172054");
    let b2 = BigInt::from_str("2");
    let b3 = b1.div(&b2);
    assert_eq!(b3.into_str(), "586027");

    let b1 = BigInt::from_str("641912");
    let b2 = BigInt::from_str("2");
    let b3 = b1.div(&b2);
    assert_eq!(b3.into_str(), "320956");

    let b1 = BigInt::from_str("28934290932");
    let b2 = BigInt::from_str("223423");
    let b3 = b1.div(&b2);
    assert_eq!(b3.into_str(), "129504");
}

#[test]
fn scenario_vectors() {
    assert_eq!(
        BigInt::from_str("123").add(&BigInt::from_str("123")).into_str(),
        "246"
    );
    assert_eq!(
        BigInt::from_str("123").sub(&BigInt::from_str("123")).into_str(),
        "0"
    );
    assert_eq!(
        BigInt::from_str("121").div(&BigInt::from_str("11")).into_str(),
        "11"
    );
}

#[test]
fn division_by_zero_fails() {
    let a = BigInt::from_str("17");
    let z = BigInt::from_str("0");
    assert_eq!(a.checked_div(&z), Err(Error::DivisionByZero));
    let nz = BigInt::from_str("-0");
    assert_eq!(a.checked_div(&nz), Err(Error::DivisionByZero));
    let neg = BigInt::from_str("-17");
    assert_eq!(neg.checked_div(&z), Err(Error::DivisionByZero));
    assert!(a.checked_div(&BigInt::from_str("5")).is_ok());
}

#[test]
fn parse_canonicalizes() {
    assert_eq!(BigInt::from_str("0007").into_str(), "7");
    assert_eq!(BigInt::from_str("-0").into_str(), "0");
    assert_eq!(BigInt::from_str("+42").into_str(), "42");
    assert_eq!(BigInt::from_str("").into_str(), "0");
    assert_eq!(BigInt::from_str("1a2b3").into_str(), "123");
    assert_eq!(BigInt::from_str("-00120").into_str(), "-120");
}

#[test]
fn round_trip_canonical_literals() {
    for s in ["0", "7", "120", "-5", "-1000", "999999999999999999999999"] {
        assert_eq!(BigInt::from_str(s).into_str(), s);
    }
}

#[test]
fn commutativity_scenarios() {
    let pairs = [("123", "-456"), ("0", "99"), ("-17", "-4"), ("100000", "999")];
    for (a, b) in pairs {
        let x = BigInt::from_str(a);
        let y = BigInt::from_str(b);
        assert_eq!(x.add(&y).into_str(), y.add(&x).into_str());
        assert_eq!(x.mul(&y).into_str(), y.mul(&x).into_str());
    }
}

#[test]
fn inverse_scenarios() {
    for s in ["0", "5", "-321", "1000000000000000000000"] {
        let a = BigInt::from_str(s);
        assert_eq!(a.add(&a.neg()).into_str(), "0");
        assert_eq!(a.sub(&a).into_str(), "0");
    }
}

#[test]
fn identity_and_annihilator() {
    let one = BigInt::from_str("1");
    let zero = BigInt::from_str("0");
    for s in ["0", "9", "-42", "123456789123456789"] {
        let a = BigInt::from_str(s);
        assert_eq!(a.mul(&one).into_str(), a.into_str());
        assert_eq!(a.mul(&zero).into_str(), "0");
    }
}

#[test]
fn division_multiplication_consistency() {
    let pairs = [("123", "7"), ("-50", "3"), ("0", "-9"), ("999", "-11")];
    for (a, b) in pairs {
        let x = BigInt::from_str(a);
        let y = BigInt::from_str(b);
        let p = x.mul(&y);
        assert_eq!(p.div(&y).into_str(), x.into_str());
    }
}

#[test]
fn truncating_division_signs() {
    assert_eq!(
        BigInt::from_str("-121").div(&BigInt::from_str("11")).into_str(),
        "-11"
    );
    assert_eq!(
        BigInt::from_str("-125").div(&BigInt::from_str("11")).into_str(),
        "-11"
    );
    assert_eq!(
        BigInt::from_str("125").div(&BigInt::from_str("-11")).into_str(),
        "-11"
    );
    assert_eq!(
        BigInt::from_str("-125").div(&BigInt::from_str("-11")).into_str(),
        "11"
    );
    assert_eq!(
        BigInt::from_str("5").div(&BigInt::from_str("-7")).into_str(),
        "0"
    );
}
