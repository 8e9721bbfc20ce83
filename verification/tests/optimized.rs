use bigint::optimized_memory::{product, sum, BigInt};
use bigint::limbs::BASE;

#[test]
fn test_eq() {
    assert!(BigInt::from_string("").unwrap() == BigInt::from_string("").unwrap());
    assert!(BigInt::from_string("").unwrap() == BigInt { data: vec![0, 0] });
    assert!(BigInt::from_string("342").unwrap() == BigInt { data: vec![342] });
    assert!(BigInt::from_string("342").unwrap() == BigInt { data: vec![342, 0, 0] });
    assert!(BigInt { data: vec![342, 0, 0, 0] } == BigInt { data: vec![342, 0] });
    assert!(BigInt { data: vec![0, 342, 0, 0] } != BigInt { data: vec![342, 0, 0] });
}

#[test]
fn test_from_string() {
    assert_eq!(BigInt { data: vec![4] }, BigInt::from_string("4").unwrap());
    assert_eq!(BigInt::zero(), BigInt::from_string("").unwrap());
    assert_eq!(
        BigInt {
            data: vec![4294967295]
        },
        BigInt::from_string("4294967295").unwrap()
    );
    assert_eq!(
        BigInt { data: vec![0, 1] },
        BigInt::from_string("4294967296").unwrap()
    );
    assert_eq!(
        BigInt {
            data: vec![3435973836, 214748364]
        },
        BigInt::from_string("922337203685477580").unwrap()
    );
    assert_eq!(
        BigInt {
            data: vec![4294963245, 4294967295, 499]
        },
        BigInt::from_string("9223372036854775803949").unwrap()
    );
    assert_eq!(
        BigInt {
            data: vec![3461744650, 2330743505, 1228788904, 542101086]
        },
        BigInt::from_string("42949672963434342343243324343232890890").unwrap()
    );
}

#[test]
fn test_sum() {
    assert_eq!(
        BigInt {
            data: vec![0, 3, 1]
        },
        sum(
            &BigInt {
                data: vec![(BASE - 1) as u32, 1]
            },
            &BigInt {
                data: vec![1, 1, 1]
            }
        )
    );
    assert_eq!(
        BigInt::from_string("683598743919434280434619734254544588").unwrap(),
        sum(
            &BigInt::from_string("683598349590386730945834985730495834").unwrap(),
            &BigInt::from_string("394329047549488784748524048754").unwrap()
        )
    );
    assert_eq!(
        BigInt::from_string("10111111111111111111111111111111111123432342342110").unwrap(),
        sum(
            &BigInt::from_string("9999999999999999999999999999999999999999999999999").unwrap(),
            &BigInt::from_string("111111111111111111111111111111111123432342342111").unwrap()
        )
    );
}

#[test]
fn test_product() {
    assert_eq!(
        BigInt {
            data: vec![4294931842, 177267, 35464, 2]
        },
        product(
            &BigInt {
                data: vec![35454, 2]
            },
            &BigInt {
                data: vec![(BASE - 1) as u32, 4, 1]
            }
        )
    );
    assert_eq!(
        BigInt::from_string(
            "1111111111111111111111111111111111234323423421109888888888888888888888888888888888876567657657889"
        )
        .unwrap(),
        product(
            &BigInt::from_string("9999999999999999999999999999999999999999999999999").unwrap(),
            &BigInt::from_string("111111111111111111111111111111111123432342342111").unwrap()
        )
    );
}

#[test]
fn test_malformed_input() {
    assert!(BigInt::from_string("12a3").is_none());
    assert!(BigInt::from_string("-42").is_none());
    assert!(BigInt::from_string(" 1").is_none());
    assert!(BigInt::from_string("4294967296x").is_none());
}

#[test]
fn test_sum_commutative() {
    let a = BigInt::from_string("9999999999999999999999999999999").unwrap();
    let b = BigInt::from_string("123456789123456789").unwrap();
    assert_eq!(sum(&a, &b), sum(&b, &a));
}

#[test]
fn test_product_commutative() {
    let a = BigInt::from_string("9999999999999999999999999999999").unwrap();
    let b = BigInt::from_string("123456789123456789").unwrap();
    assert_eq!(product(&a, &b), product(&b, &a));
}

#[test]
fn test_sum_associative() {
    let a = BigInt::from_string("340282366920938463463374607431768211456").unwrap();
    let b = BigInt::from_string("18446744073709551617").unwrap();
    let c = BigInt::from_string("97").unwrap();
    assert_eq!(sum(&sum(&a, &b), &c), sum(&a, &sum(&b, &c)));
}

#[test]
fn test_identities() {
    let a = BigInt::from_string("340282366920938463463374607431768211455").unwrap();
    let one = BigInt::from_string("1").unwrap();
    assert_eq!(sum(&a, &BigInt::zero()), a);
    assert_eq!(product(&a, &BigInt::zero()), BigInt::zero());
    assert_eq!(product(&a, &one), a);
}

#[test]
fn test_doubling() {
    let a = BigInt::from_string("12345678901234567890123456789012345678901").unwrap();
    let two = BigInt::from_string("2").unwrap();
    assert_eq!(product(&two, &a), sum(&a, &a));
}

#[test]
fn test_sum_lengths() {
    // A final carry adds one limb: (2^32 - 1) + 1 = 2^32 = [0, 1].
    let a = BigInt {
        data: vec![(BASE - 1) as u32],
    };
    let b = BigInt { data: vec![1] };
    let s = sum(&a, &b);
    assert_eq!(s, BigInt { data: vec![0, 1] });
    assert_eq!(s.data.len(), 2);
}
