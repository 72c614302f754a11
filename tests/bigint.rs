use rust101::bigint::{overflowing_add, overflowing_sub, BigInt};
use rust101::minimum::{vec_min, Minimum};

#[test]
fn bigint_test_min() {
    let b1 = BigInt::new(1);
    let b2 = BigInt::new(42);
    let b3 = BigInt::from_vec(vec![0, 1]);

    assert_eq!(b1.min(&b2), &b1);
    assert_eq!(b2.min(&b1), &b1);
    assert_eq!(b3.min(&b2), &b2);
    assert_eq!(b2.min(&b3), &b2);
}

#[test]
fn test_vec_min() {
    let b1 = BigInt::new(1);
    let b2 = BigInt::new(42);
    let b3 = BigInt::from_vec(vec![0, 1]);

    assert_eq!(vec_min(&vec![b2.clone(), b1.clone(), b3.clone()]), Some(&b1));
    assert_eq!(vec_min(&vec![b2.clone(), b3.clone()]), Some(&b2));
    assert_eq!(vec_min(&vec![b3.clone()]), Some(&b3));
    assert_eq!(vec_min::<BigInt>(&vec![]), None);
}

#[test]
fn test_overflowing_add() {
    assert_eq!(overflowing_add(10, 100, false), (110, false));
    assert_eq!(overflowing_add(10, 100, true), (111, false));
    assert_eq!(overflowing_add(1 << 63, 1 << 63, false), (0, true));
    assert_eq!(overflowing_add(1 << 63, 1 << 63, true), (1, true));
    assert_eq!(overflowing_add(1 << 63, (1 << 63) - 1, true), (0, true));
}

#[test]
fn test_overflowing_sub() {
    assert_eq!(overflowing_sub(100, 10, false), (90, false));
    assert_eq!(overflowing_sub(100, 10, true), (89, false));
    assert_eq!(overflowing_sub(10, 1 << 63, false), ((1 << 63) + 10, true));
    assert_eq!(overflowing_sub(10, 1 << 63, true), ((1 << 63) + 9, true));
    assert_eq!(overflowing_sub(42, 42, true), (u64::max_value(), true));
}

#[test]
fn test_add() {
    let b1 = BigInt::new(1 << 32);
    let b2 = BigInt::from_vec(vec![0, 1]);
    let b3 = BigInt::from_vec(vec![0, 0, 1]);
    let b4 = BigInt::new(1 << 63);

    assert_eq!(&b1 + &b2, BigInt::from_vec(vec![1 << 32, 1]));
    assert_eq!(&b2 + &b1, BigInt::from_vec(vec![1 << 32, 1]));
    assert_eq!(&b2 + &b3, BigInt::from_vec(vec![0, 1, 1]));
    assert_eq!(&b2 + &b3 + &b4 + &b4, BigInt::from_vec(vec![0, 2, 1]));
    assert_eq!(&b2 + &b4 + &b3 + &b4, BigInt::from_vec(vec![0, 2, 1]));
    assert_eq!(&b4 + &b2 + &b3 + &b4, BigInt::from_vec(vec![0, 2, 1]));
}

#[test]
fn test_sub() {
    let b1 = BigInt::new(1 << 32);
    let b2 = BigInt::from_vec(vec![0, 1]);
    let b3 = BigInt::from_vec(vec![0, 0, 1]);
    let b4 = BigInt::new(1 << 63);

    assert_eq!(&b2 - &b1, BigInt::from_vec(vec![u64::max_value() - (1 << 32) + 1]));
    assert_eq!(&b3 - &b2, BigInt::from_vec(vec![0, u64::max_value(), 0]));
    assert_eq!(&b2 - &b4 - &b4, BigInt::new(0));
    assert_eq!(&b3 - &b2 - &b4 - &b4, BigInt::from_vec(vec![0, u64::max_value() - 1]));
    assert_eq!(&b3 - &b4 - &b2 - &b4, BigInt::from_vec(vec![0, u64::max_value() - 1]));
    assert_eq!(&b3 - &b4 - &b4 - &b2, BigInt::from_vec(vec![0, u64::max_value() - 1]));
}

#[test]
fn test_inc1() {
    let mut b = BigInt::new(0);
    b.inc1();
    assert_eq!(b, BigInt::new(1));
    b.inc1();
    assert_eq!(b, BigInt::new(2));

    b = BigInt::new(u64::MAX);
    b.inc1();
    assert_eq!(b, BigInt::from_vec(vec![0, 1]));
    b.inc1();
    assert_eq!(b, BigInt::from_vec(vec![1, 1]));
}

#[test]
fn test_power_of_2() {
    assert_eq!(BigInt::power_of_2(0), BigInt::new(1));
    assert_eq!(BigInt::power_of_2(13), BigInt::new(1 << 13));
    assert_eq!(BigInt::power_of_2(64), BigInt::from_vec(vec![0, 1]));
    assert_eq!(BigInt::power_of_2(96), BigInt::from_vec(vec![0, 1 << 32]));
    assert_eq!(BigInt::power_of_2(128), BigInt::from_vec(vec![0, 0, 1]));
}

#[test]
fn part07_test_min() {
    let b1 = BigInt::new(1);
    let b2 = BigInt::new(42);
    let b3 = BigInt::from_vec(vec![0, 1]);
    assert!(*b1.min(&b2) == b1);
    assert!(*b3.min(&b2) == b2);
}

#[test]
fn from_vec_drops_trailing_zeros() {
    let b = BigInt::from_vec(vec![5, 0, 0]);
    assert_eq!(b, BigInt::new(5));
    assert!(b.test_invariant());
    assert_eq!(BigInt::from_vec(vec![0, 0]), BigInt::new(0));
    assert!(BigInt::new(0).test_invariant());
}

#[test]
fn inc_carries_through_digits() {
    let mut b = BigInt::from_vec(vec![u64::MAX, u64::MAX]);
    b.inc(2);
    assert_eq!(b, BigInt::from_vec(vec![1, 0, 1]));
    let mut z = BigInt::new(0);
    z.inc(0);
    assert_eq!(z, BigInt::new(0));
    assert!(z.test_invariant());
    z.inc(7);
    assert_eq!(z, BigInt::new(7));
}

#[test]
fn add_then_sub_gives_back() {
    let a = BigInt::from_vec(vec![3, u64::MAX, 9]);
    let b = BigInt::from_vec(vec![u64::MAX, 4]);
    let s = &a + &b;
    assert_eq!(&s - &b, a);
    assert_eq!(a.plus(&b), s);
    assert_eq!(s.minus(&a), b);
}

#[test]
fn min_picks_first_on_equal_values() {
    let a = BigInt::from_vec(vec![7, 8]);
    let b = BigInt::from_vec(vec![7, 8]);
    assert!(std::ptr::eq(a.min(&b), &a));
    let c = BigInt::from_vec(vec![9, 7]);
    assert_eq!(a.min(&c), &c);
}

#[test]
fn min_try1_compares_values() {
    let a = BigInt::from_vec(vec![1, 2]);
    let b = BigInt::new(u64::MAX);
    assert_eq!(a.clone().min_try1(b.clone()), b);
    assert_eq!(b.clone().min_try1(a.clone()), b);
}

#[test]
fn vec_min_over_owned_numbers() {
    let v = vec![BigInt::from_vec(vec![0, 1]), BigInt::new(3), BigInt::new(2)];
    assert_eq!(rust101::bigint::vec_min(&v), Some(BigInt::new(2)));
    assert_eq!(rust101::bigint::vec_min(&vec![]), None);
}

#[test]
fn digits_come_most_significant_first() {
    let b = BigInt::from_vec(vec![1, 2, 3]);
    let mut it = b.iter();
    assert_eq!(it.next(), Some(3));
    assert_eq!(it.next(), Some(2));
    assert_eq!(it.next(), Some(1));
    assert_eq!(it.next(), None);
    let mut seen = Vec::new();
    b.act(|d| seen.push(d));
    assert_eq!(seen, vec![3, 2, 1]);
}

#[test]
fn test_min() {
    let b1 = BigInt::new(1);
    let b2 = BigInt::new(42);
    let b3 = BigInt::from_vec(vec![0, 1]);

    assert!(*b1.min(&b2) == b1);
    assert!(*b2.min(&b1) == b1);
    assert!(*b3.min(&b2) == b2);
}
