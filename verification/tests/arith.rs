use nbody_simulation::barnes_hut::arith::floor_div;
use nbody_simulation::barnes_hut::arith::isqrt;
use nbody_simulation::barnes_hut::arith::share;
use nbody_simulation::barnes_hut::arith::square_shifted;

#[test]
fn isqrt_rounds_down() {
    assert_eq!(isqrt(0), 0);
    assert_eq!(isqrt(1), 1);
    assert_eq!(isqrt(3), 1);
    assert_eq!(isqrt(4), 2);
    assert_eq!(isqrt(24), 4);
    assert_eq!(isqrt(25), 5);
    assert_eq!(isqrt(20_000_000_000), 141_421);
    assert_eq!(isqrt(u128::MAX), u64::MAX);
    assert_eq!(isqrt((u64::MAX as u128) * (u64::MAX as u128) - 1), u64::MAX - 1);
}

#[test]
fn floor_div_rounds_towards_minus_infinity() {
    assert_eq!(floor_div(7, 2), 3);
    assert_eq!(floor_div(-7, 2), -4);
    assert_eq!(floor_div(-8, 2), -4);
    assert_eq!(floor_div(-1, 1000), -1);
    assert_eq!(floor_div(0, 5), 0);
    assert_eq!(floor_div(i128::MAX, 1), i128::MAX);
    assert_eq!(floor_div(i128::MIN + 1, 1), i128::MIN + 1);
    assert_eq!(floor_div(-1, u128::MAX), -1);
    assert_eq!(floor_div(i128::MIN + 1, u128::MAX), -1);
    assert_eq!(floor_div(i128::MAX, u128::MAX), 0);
    assert_eq!(floor_div(-9, 3), -3);
}

#[test]
fn square_shifted_drops_sixty_four_bits() {
    assert_eq!(square_shifted(0), 0);
    assert_eq!(square_shifted(1 << 32), 1);
    assert_eq!(square_shifted((1 << 32) - 1), 0);
    assert_eq!(square_shifted(3 << 32), 9);
    assert_eq!(square_shifted((1 << 80) - 1), 79228162514264337593543819264);
    assert_eq!(square_shifted(123456789012345678901234), 826247639818522645280578488);
}

#[test]
fn share_is_the_exact_rounded_down_fraction() {
    assert_eq!(share(100, 3, 5), 60);
    assert_eq!(share(4, 100_000, 141_421), 2);
    assert_eq!(share(7, 0, 9), 0);
    assert_eq!(share(7, 9, 9), 7);
    assert_eq!(share(u128::MAX, u64::MAX - 1, u64::MAX), 340282366920938463444927863358058659838);
    assert_eq!(share(u128::MAX, 1, 2), u128::MAX / 2);
}
