use period_sieve::modular::{
    cipolla, has_qw_homomorphism, log_2, mod_inverse, mod_power, multiplicative_order, prime,
    small_prime,
};

#[test]
fn test_cipolla() {
    println!("(2, 7)");
    assert_eq!(cipolla(2, 7), Some((4, 3)));
    println!("(8218, 10007)");
    assert_eq!(cipolla(8218, 10007), Some((9872, 135)));
    println!("(56, 101)");
    assert_eq!(cipolla(56, 101), Some((37, 64)));
    println!("(1, 11)");
    assert_eq!(cipolla(1, 11), Some((1, 10)));
    println!("(8219, 10007)");
    assert_eq!(cipolla(8219, 10007), None);

    println!("{:?}", cipolla(0, 3));
}

#[test]
fn cipolla_roots_square_to_input() {
    for p in [5i64, 13, 17, 29, 37, 41, 101] {
        for n in 0..p {
            let brute = (0..p).any(|x| (x * x) % p == n);
            match cipolla(n, p) {
                Some((r, s)) => {
                    assert!(brute);
                    assert_eq!((r * r) % p, n);
                    assert_eq!(s, (p - r) % p);
                }
                None => assert!(!brute),
            }
        }
    }
}

#[test]
fn cipolla_reduces_negative_input() {
    let (r, s) = cipolla(-3, 7).unwrap();
    assert_eq!((r * r) % 7, 4);
    assert_eq!((r + s) % 7, 0);
    assert_eq!(cipolla(0, 3), Some((0, 0)));
}

#[test]
fn mod_inverse_values() {
    assert_eq!(mod_inverse(3, 7), 5);
    assert_eq!(mod_inverse(-3, 7), 2);
    assert_eq!(mod_inverse(10, 7), 5);
    assert_eq!(mod_inverse(1, 2), 1);
}

#[test]
fn mod_inverse_times_value_is_one() {
    for p in [2i64, 3, 5, 7, 11, 97, 10007] {
        for a in 1..p.min(200) {
            assert_eq!((mod_inverse(a, p) * a) % p, 1);
        }
    }
}

#[test]
fn mod_power_values() {
    assert_eq!(mod_power(3, 4, 7), 4);
    assert_eq!(mod_power(-2, 3, 7), 6);
    assert_eq!(mod_power(5, 0, 7), 1);
    assert_eq!(mod_power(5, -1, 7), 1);
    assert_eq!(mod_power(2, 10, 1000), 24);
}

#[test]
fn multiplicative_order_values() {
    assert_eq!(multiplicative_order(2, 7), 3);
    assert_eq!(multiplicative_order(3, 7), 6);
    assert_eq!(multiplicative_order(6, 7), 2);
    assert_eq!(multiplicative_order(1, 7), 1);
    assert_eq!(multiplicative_order(9, 7), 3);
}

#[test]
fn multiplicative_order_divides_group_size() {
    for p in [3i64, 5, 7, 11, 13, 97] {
        for a in 1..p {
            let r = multiplicative_order(a, p) as i64;
            assert_eq!((p - 1) % r, 0);
            assert_eq!(mod_power(a, r, p), 1);
        }
    }
}

#[test]
fn primality() {
    assert!(!small_prime(0));
    assert!(!small_prime(1));
    assert!(small_prime(2));
    assert!(small_prime(3));
    assert!(!small_prime(4));
    assert!(!small_prime(91));
    assert!(small_prime(97));
    assert!(prime(293));
    assert!(!prime(299));
}

#[test]
fn log_2_values() {
    assert_eq!(log_2(1), 0);
    assert_eq!(log_2(8), 3);
    assert_eq!(log_2(9), 3);
    assert_eq!(log_2(i64::MAX), 62);
}

#[test]
fn qw_homomorphism_primes() {
    assert!(!has_qw_homomorphism(2));
    assert!(has_qw_homomorphism(3));
    assert!(!has_qw_homomorphism(5));
    assert!(has_qw_homomorphism(7));
    assert!(!has_qw_homomorphism(11));
    assert!(has_qw_homomorphism(13));
}
