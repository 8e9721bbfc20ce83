use bigint::easy::{product, sum, BigInt};

#[test]
fn test_from_binary_string() {
    assert_eq!(
        BigInt {
            data: vec![1, 0, 1, 1]
        },
        BigInt::from_binary_string("1011")
    );
}

#[test]
fn lib_test_sum() {
    assert_eq!(
        BigInt {
            data: vec![1, 0, 1, 0, 1]
        },
        sum(
            &BigInt {
                data: vec![1, 1, 1]
            },
            &BigInt {
                data: vec![0, 1, 1, 1]
            }
        )
    );
}

#[test]
fn lib_test_product() {
    assert_eq!(
        BigInt {
            data: vec![0, 1, 0, 1]
        },
        product(
            &BigInt { data: vec![0, 1] },
            &BigInt {
                data: vec![1, 0, 1]
            }
        )
    );
}

#[test]
fn test_carry_through_zero_bit() {
    // 5 + 5 = 10: the carry must clear after passing a (0, 0) column.
    assert_eq!(
        BigInt {
            data: vec![0, 1, 0, 1]
        },
        sum(
            &BigInt {
                data: vec![1, 0, 1]
            },
            &BigInt {
                data: vec![1, 0, 1]
            }
        )
    );
}

#[test]
fn test_zero_is_empty() {
    assert_eq!(BigInt::zero(), BigInt { data: vec![] });
    assert_eq!(BigInt::zero(), BigInt::from_binary_string(""));
}
