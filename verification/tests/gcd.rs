use mandelbrot::arith::{gcd, smallest};

#[test]
fn test_gcd() {
    let n = 9;
    let m = 6;

    println!("gcd({},{}) = {}", n, m, gcd(n, m));

    assert_eq!(gcd(14, 15), 1);

    assert_eq!(gcd(2 * 3 * 5 * 11 * 17, 3 * 7 * 11 * 13 * 19), 3 * 11);
}

#[test]
fn gcd_of_equal_numbers_is_the_number() {
    assert_eq!(gcd(1, 1), 1);
    assert_eq!(gcd(42, 42), 42);
    assert_eq!(gcd(u64::MAX, u64::MAX), u64::MAX);
}

#[test]
fn gcd_where_one_divides_the_other() {
    assert_eq!(gcd(6, 18), 6);
    assert_eq!(gcd(18, 6), 6);
    assert_eq!(gcd(1, u64::MAX), 1);
}

#[test]
fn gcd_is_symmetric() {
    assert_eq!(gcd(9, 6), 3);
    assert_eq!(gcd(6, 9), 3);
    assert_eq!(gcd(1071, 462), 21);
    assert_eq!(gcd(462, 1071), 21);
}

#[test]
fn gcd_divides_both_and_is_greatest() {
    let (n, m) = (360u64, 84u64);
    let g = gcd(n, m);
    assert_eq!(g, 12);
    assert_eq!(n % g, 0);
    assert_eq!(m % g, 0);
    for d in (g + 1)..=m {
        assert!(!(n % d == 0 && m % d == 0));
    }
}

#[test]
fn smallest_of_a_parabola() {
    let parabola = [9, 4, 1, 0, 1, 4, 9];
    let s = smallest(&parabola);
    assert_eq!(*s, 0);
}

#[test]
fn smallest_of_one_and_of_equal_elements() {
    assert_eq!(*smallest(&[7]), 7);
    assert_eq!(*smallest(&[3, 3, 3]), 3);
    assert_eq!(*smallest(&[5, -2, 8, -2]), -2);
    assert_eq!(*smallest(&[i32::MAX, i32::MIN]), i32::MIN);
}
