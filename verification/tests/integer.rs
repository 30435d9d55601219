use roundable::{Roundable, Tie};

/// All tie behaviors.
fn tie_behaviors() -> [Tie; 6] {
    [
        Tie::Up,
        Tie::Down,
        Tie::TowardZero,
        Tie::AwayFromZero,
        Tie::TowardEven,
        Tie::TowardOdd,
    ]
}

#[test]
fn int_round_small_unsigned_integer() {
    assert!(10 == 10.round_to(1, Tie::Up));

    assert!(0 == 0.round_to(2, Tie::Up));
    assert!(2 == 1.round_to(2, Tie::Up));
    assert!(2 == 2.round_to(2, Tie::Up));
    assert!(4 == 3.round_to(2, Tie::Up));
    assert!(4 == 4.round_to(2, Tie::Up));

    assert!(0 == 0.round_to(3, Tie::Up));
    assert!(0 == 1.round_to(3, Tie::Up));
    assert!(3 == 2.round_to(3, Tie::Up));
    assert!(3 == 3.round_to(3, Tie::Up));
}

#[test]
fn int_round_small_signed_integer() {
    assert!(10 == 10i8.round_to(1, Tie::Up));

    assert!(0 == 0i8.round_to(2, Tie::Up));
    assert!(2 == 1i8.round_to(2, Tie::Up));
    assert!(2 == 2i8.round_to(2, Tie::Up));
    assert!(4 == 3i8.round_to(2, Tie::Up));
    assert!(4 == 4i8.round_to(2, Tie::Up));

    assert!(0 == 0i8.round_to(3, Tie::Up));
    assert!(0 == 1i8.round_to(3, Tie::Up));
    assert!(3 == 2i8.round_to(3, Tie::Up));
    assert!(3 == 3i8.round_to(3, Tie::Up));

    assert!(-10 == (-10i8).round_to(1, Tie::Up));

    assert!(0 == (-1i8).round_to(2, Tie::Up));
    assert!(-2 == (-2i8).round_to(2, Tie::Up));
    assert!(-2 == (-3i8).round_to(2, Tie::Up));
    assert!(-4 == (-4i8).round_to(2, Tie::Up));

    assert!(0 == (-1i8).round_to(3, Tie::Up));
    assert!(-3 == (-2i8).round_to(3, Tie::Up));
    assert!(-3 == (-3i8).round_to(3, Tie::Up));
}

#[test]
fn int_round_integer_tie_up() {
    assert!(10 == 10.round_to(1, Tie::Up));

    assert!(0 == 0.round_to(2, Tie::Up));
    assert!(2 == 1.round_to(2, Tie::Up));
    assert!(2 == 2.round_to(2, Tie::Up));
    assert!(4 == 3.round_to(2, Tie::Up));
    assert!(4 == 4.round_to(2, Tie::Up));

    assert!(0 == 0.round_to(3, Tie::Up));
    assert!(0 == 1.round_to(3, Tie::Up));
    assert!(3 == 2.round_to(3, Tie::Up));
    assert!(3 == 3.round_to(3, Tie::Up));

    assert!(-10 == (-10).round_to(1, Tie::Up));

    assert!(0 == (-1).round_to(2, Tie::Up));
    assert!(-2 == (-2).round_to(2, Tie::Up));
    assert!(-2 == (-3).round_to(2, Tie::Up));
    assert!(-4 == (-4).round_to(2, Tie::Up));

    assert!(0 == (-1).round_to(3, Tie::Up));
    assert!(-3 == (-2).round_to(3, Tie::Up));
    assert!(-3 == (-3).round_to(3, Tie::Up));
}

#[test]
fn int_round_integer_tie_down() {
    assert!(10 == 10.round_to(1, Tie::Down));

    assert!(0 == 0.round_to(2, Tie::Down));
    assert!(0 == 1.round_to(2, Tie::Down));
    assert!(2 == 2.round_to(2, Tie::Down));
    assert!(2 == 3.round_to(2, Tie::Down));
    assert!(4 == 4.round_to(2, Tie::Down));

    assert!(0 == 0.round_to(3, Tie::Down));
    assert!(0 == 1.round_to(3, Tie::Down));
    assert!(3 == 2.round_to(3, Tie::Down));
    assert!(3 == 3.round_to(3, Tie::Down));

    assert!(-10 == (-10).round_to(1, Tie::Down));

    assert!(-2 == (-1).round_to(2, Tie::Down));
    assert!(-2 == (-2).round_to(2, Tie::Down));
    assert!(-4 == (-3).round_to(2, Tie::Down));
    assert!(-4 == (-4).round_to(2, Tie::Down));

    assert!(0 == (-1).round_to(3, Tie::Down));
    assert!(-3 == (-2).round_to(3, Tie::Down));
    assert!(-3 == (-3).round_to(3, Tie::Down));
}

#[test]
fn int_round_integer_tie_toward_zero() {
    assert!(10 == 10.round_to(1, Tie::TowardZero));

    assert!(0 == 0.round_to(2, Tie::TowardZero));
    assert!(0 == 1.round_to(2, Tie::TowardZero));
    assert!(2 == 2.round_to(2, Tie::TowardZero));
    assert!(2 == 3.round_to(2, Tie::TowardZero));
    assert!(4 == 4.round_to(2, Tie::TowardZero));

    assert!(0 == 0.round_to(3, Tie::TowardZero));
    assert!(0 == 1.round_to(3, Tie::TowardZero));
    assert!(3 == 2.round_to(3, Tie::TowardZero));
    assert!(3 == 3.round_to(3, Tie::TowardZero));

    assert!(-10 == (-10).round_to(1, Tie::TowardZero));

    assert!(0 == (-1).round_to(2, Tie::TowardZero));
    assert!(-2 == (-2).round_to(2, Tie::TowardZero));
    assert!(-2 == (-3).round_to(2, Tie::TowardZero));
    assert!(-4 == (-4).round_to(2, Tie::TowardZero));

    assert!(0 == (-1).round_to(3, Tie::TowardZero));
    assert!(-3 == (-2).round_to(3, Tie::TowardZero));
    assert!(-3 == (-3).round_to(3, Tie::TowardZero));
}

#[test]
fn int_round_integer_tie_away_from_zero() {
    assert!(10 == 10.round_to(1, Tie::AwayFromZero));

    assert!(0 == 0.round_to(2, Tie::AwayFromZero));
    assert!(2 == 1.round_to(2, Tie::AwayFromZero));
    assert!(2 == 2.round_to(2, Tie::AwayFromZero));
    assert!(4 == 3.round_to(2, Tie::AwayFromZero));
    assert!(4 == 4.round_to(2, Tie::AwayFromZero));

    assert!(0 == 0.round_to(3, Tie::AwayFromZero));
    assert!(0 == 1.round_to(3, Tie::AwayFromZero));
    assert!(3 == 2.round_to(3, Tie::AwayFromZero));
    assert!(3 == 3.round_to(3, Tie::AwayFromZero));

    assert!(-10 == (-10).round_to(1, Tie::AwayFromZero));

    assert!(-2 == (-1).round_to(2, Tie::AwayFromZero));
    assert!(-2 == (-2).round_to(2, Tie::AwayFromZero));
    assert!(-4 == (-3).round_to(2, Tie::AwayFromZero));
    assert!(-4 == (-4).round_to(2, Tie::AwayFromZero));

    assert!(0 == (-1).round_to(3, Tie::AwayFromZero));
    assert!(-3 == (-2).round_to(3, Tie::AwayFromZero));
    assert!(-3 == (-3).round_to(3, Tie::AwayFromZero));
}

#[test]
fn int_round_integer_tie_toward_even() {
    assert!(10 == 10.round_to(1, Tie::TowardEven));

    assert!(0 == 0.round_to(2, Tie::TowardEven));
    assert!(0 == 1.round_to(2, Tie::TowardEven));
    assert!(2 == 2.round_to(2, Tie::TowardEven));
    assert!(4 == 3.round_to(2, Tie::TowardEven));
    assert!(4 == 4.round_to(2, Tie::TowardEven));

    assert!(0 == 0.round_to(3, Tie::TowardEven));
    assert!(0 == 1.round_to(3, Tie::TowardEven));
    assert!(3 == 2.round_to(3, Tie::TowardEven));
    assert!(3 == 3.round_to(3, Tie::TowardEven));

    assert!(-10 == (-10).round_to(1, Tie::TowardEven));

    assert!(0 == (-1).round_to(2, Tie::TowardEven));
    assert!(-2 == (-2).round_to(2, Tie::TowardEven));
    assert!(-4 == (-3).round_to(2, Tie::TowardEven));
    assert!(-4 == (-4).round_to(2, Tie::TowardEven));

    assert!(0 == (-1).round_to(3, Tie::TowardEven));
    assert!(-3 == (-2).round_to(3, Tie::TowardEven));
    assert!(-3 == (-3).round_to(3, Tie::TowardEven));
}

#[test]
fn int_round_integer_tie_toward_odd() {
    assert!(10 == 10.round_to(1, Tie::TowardOdd));

    assert!(0 == 0.round_to(2, Tie::TowardOdd));
    assert!(2 == 1.round_to(2, Tie::TowardOdd));
    assert!(2 == 2.round_to(2, Tie::TowardOdd));
    assert!(2 == 3.round_to(2, Tie::TowardOdd));
    assert!(4 == 4.round_to(2, Tie::TowardOdd));

    assert!(0 == 0.round_to(3, Tie::TowardOdd));
    assert!(0 == 1.round_to(3, Tie::TowardOdd));
    assert!(3 == 2.round_to(3, Tie::TowardOdd));
    assert!(3 == 3.round_to(3, Tie::TowardOdd));

    assert!(-10 == (-10).round_to(1, Tie::TowardOdd));

    assert!(-2 == (-1).round_to(2, Tie::TowardOdd));
    assert!(-2 == (-2).round_to(2, Tie::TowardOdd));
    assert!(-2 == (-3).round_to(2, Tie::TowardOdd));
    assert!(-4 == (-4).round_to(2, Tie::TowardOdd));

    assert!(0 == (-1).round_to(3, Tie::TowardOdd));
    assert!(-3 == (-2).round_to(3, Tie::TowardOdd));
    assert!(-3 == (-3).round_to(3, Tie::TowardOdd));
}

#[test]
fn int_round_max_integer() {
    // Tie behaviors should be irrelevant in all these cases.
    for behavior in tie_behaviors() {
        assert!(0 == 10.round_to(u32::MAX, behavior));
        assert!(0 == (u32::MAX / 2).round_to(u32::MAX, behavior));
        assert!(u32::MAX == (u32::MAX / 2 + 1).round_to(u32::MAX, behavior));
        assert!(u32::MAX == u32::MAX.round_to(u32::MAX, behavior));

        assert!(0 == 10.round_to(i32::MAX, behavior));
        assert!(0 == (i32::MAX / 2).round_to(i32::MAX, behavior));
        assert!(i32::MAX == (i32::MAX / 2 + 1).round_to(i32::MAX, behavior));
        assert!(i32::MAX == i32::MAX.round_to(i32::MAX, behavior));
    }
}

#[test]
fn int_round_min_integer() {
    // Tie behaviors should be irrelevant in all these cases.
    for behavior in tie_behaviors() {
        assert!(-i32::MAX == i32::MIN.round_to(i32::MAX, behavior));
        assert!(-i32::MAX == (i32::MIN / 2).round_to(i32::MAX, behavior));
        assert!(0 == (i32::MIN / 2 + 1).round_to(i32::MAX, behavior));
    }
}

#[test]
fn int_round_largest_integer_tie() {
    assert!(254 == 127u8.round_to(254, Tie::Up));
    assert!(0 == 127u8.round_to(254, Tie::Down));
    assert!(0 == 127u8.round_to(254, Tie::TowardZero));
    assert!(254 == 127u8.round_to(254, Tie::AwayFromZero));
    assert!(0 == 127u8.round_to(254, Tie::TowardEven));
    assert!(254 == 127u8.round_to(254, Tie::TowardOdd));
}

#[test]
fn int_round_all_u8s() {
    // Just make sure they don't panic.
    for behavior in tie_behaviors() {
        for value in u8::MIN..=u8::MAX {
            for factor in 1..=u8::MAX {
                let _ = value.try_round_to(factor, behavior);
            }
        }
    }
}

#[test]
fn int_round_all_i8s() {
    // Just make sure they don't panic.
    for behavior in tie_behaviors() {
        for value in i8::MIN..=i8::MAX {
            for factor in 1..=i8::MAX {
                let _ = value.try_round_to(factor, behavior);
            }
        }
    }
}
