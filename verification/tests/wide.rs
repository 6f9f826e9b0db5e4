use trajectory_core::wide::{U192, U384};

fn u192(lo: u64, mid: u64, hi: u64) -> U192 {
    U192 { lo, mid, hi }
}

fn parts(v: U192) -> (u64, u64, u64) {
    (v.lo, v.mid, v.hi)
}

#[test]
fn wide_from_u128_splits_limbs() {
    assert_eq!(parts(U192::from_u128(0)), (0, 0, 0));
    assert_eq!(parts(U192::from_u128(u128::MAX)), (u64::MAX, u64::MAX, 0));
    assert_eq!(parts(U192::from_u128((7u128 << 64) + 9)), (9, 7, 0));
}

#[test]
fn wide_plus_carries() {
    let a = u192(u64::MAX, u64::MAX, 0);
    assert_eq!(parts(a.plus(&u192(1, 0, 0))), (0, 0, 1));
    assert_eq!(parts(u192(5, 6, 7).plus(&u192(1, 2, 3))), (6, 8, 10));
}

#[test]
fn wide_minus_borrows() {
    assert_eq!(parts(u192(0, 0, 1).minus(&u192(1, 0, 0))), (u64::MAX, u64::MAX, 0));
    assert_eq!(parts(u192(6, 8, 10).minus(&u192(1, 2, 3))), (5, 6, 7));
    assert_eq!(parts(u192(0, 5, 0).minus(&u192(1, 0, 0))), (u64::MAX, 4, 0));
}

#[test]
fn wide_halved_shifts_across_limbs() {
    assert_eq!(parts(u192(0, 0, 1).halved()), (0, 1 << 63, 0));
    assert_eq!(parts(u192(3, 1, 0).halved()), ((1 << 63) + 1, 0, 0));
    assert_eq!(parts(u192(7, 0, 0).halved()), (3, 0, 0));
}

#[test]
fn wide_less_orders_by_value() {
    assert!(u192(u64::MAX, u64::MAX, 0).less(&u192(0, 0, 1)));
    assert!(!u192(0, 0, 1).less(&u192(u64::MAX, u64::MAX, 0)));
    assert!(!u192(4, 4, 4).less(&u192(4, 4, 4)));
    assert!(u192(3, 4, 4).less(&u192(4, 4, 4)));
}

#[test]
fn wide_times_is_exact() {
    // (2^129 - 12345) * (2^128 + 987654321)
    let a = u192(18446744073709539271, 18446744073709551615, 1);
    let b = u192(987654321, 0, 1);
    let p = a.times(&b);
    assert_eq!(
        (p.l0, p.l1, p.l2, p.l3, p.l4, p.l5),
        (18446731881116958871, 18446744073709551615, 1975296296, 0, 2, 0)
    );
    let top = u192(u64::MAX, u64::MAX, u64::MAX);
    let p = top.times(&top);
    assert_eq!(
        (p.l0, p.l1, p.l2, p.l3, p.l4, p.l5),
        (1, 0, 0, u64::MAX - 1, u64::MAX, u64::MAX)
    );
}

#[test]
fn wide_at_most_orders_by_value() {
    let small = U384 { l0: u64::MAX, l1: u64::MAX, l2: u64::MAX, l3: u64::MAX, l4: u64::MAX, l5: 0 };
    let large = U384 { l0: 0, l1: 0, l2: 0, l3: 0, l4: 0, l5: 1 };
    assert!(small.at_most(&large));
    assert!(!large.at_most(&small));
    assert!(large.at_most(&large));
}

#[test]
fn wide_quotient_rounds_down() {
    let a = u192(18446744073709539271, 18446744073709551615, 1);
    let b = u192(987654321, 0, 1);
    let p = a.times(&b);
    let bound = u192(0, 0, 4);
    assert_eq!(parts(p.quotient(&b, &bound)), parts(a));
    assert_eq!(parts(p.quotient(&a, &bound)), parts(b));
    let seven = U384 { l0: 7, l1: 0, l2: 0, l3: 0, l4: 0, l5: 0 };
    assert_eq!(parts(seven.quotient(&u192(2, 0, 0), &u192(4, 0, 0))), (3, 0, 0));
    assert_eq!(parts(seven.quotient(&u192(8, 0, 0), &u192(1, 0, 0))), (0, 0, 0));
}
