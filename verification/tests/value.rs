use redshift::value::{Hundredths, Percent, Ticks, FRAC_BITS};

#[test]
fn hundredths_convert_exactly() {
    // 1.0 must land exactly on the fixed-point one, or every speed and range
    // in the game is subtly off.
    assert_eq!(Hundredths(100).to_fx_raw(), 1 << FRAC_BITS);
    assert_eq!(Hundredths(50).to_fx_raw(), 1 << (FRAC_BITS - 1));
    assert_eq!(Hundredths(0).to_fx_raw(), 0);
    assert_eq!(Hundredths(-100).to_fx_raw(), -(1 << FRAC_BITS));
}

#[test]
fn conversion_is_pure_integer_arithmetic() {
    for raw in [-100_000, -450, -1, 0, 1, 450, 100_000] {
        let a = Hundredths(raw).to_fx_raw();
        let b = Hundredths(raw).to_fx_raw();
        assert_eq!(a, b);
    }
}

#[test]
fn hundredths_display_readably() {
    assert_eq!(Hundredths(450).to_string(), "4.50");
    assert_eq!(Hundredths(5).to_string(), "0.05");
    assert_eq!(Hundredths(-450).to_string(), "-4.50");
    assert_eq!(Hundredths(0).to_string(), "0.00");
}

#[test]
fn percent_applies_without_overflow_at_realistic_magnitudes() {
    assert_eq!(Percent(60).apply(400), 240);
    assert_eq!(Percent::full().apply(400), 400);
    assert_eq!(Percent::zero().apply(400), 0);
    assert_eq!(Percent(150).apply(1_000_000), 1_500_000);
}

#[test]
fn percent_defaults_to_unchanged() {
    // A modifier left out of a rules file must mean "no change", not "zero".
    assert_eq!(Percent::default(), Percent::full());
    assert_eq!(Percent::default().apply(77), 77);
}

#[test]
fn the_two_proportion_types_do_not_interchange() {
    assert_ne!(Hundredths(60).0 as i64, Percent(60).apply(1) as i64 * 100);
    assert_eq!(Percent(60).apply(100), 60);
    assert_eq!(Hundredths(60).to_fx_raw(), (60 << FRAC_BITS) / 100);
}

#[test]
fn ticks_convert_from_seconds() {
    assert_eq!(Ticks::from_seconds(1, 20), Ticks(20));
    assert_eq!(Ticks::from_seconds(45, 20), Ticks(900));
}

#[test]
fn percent_rounds_toward_zero() {
    assert_eq!(Percent(50).apply(3), 1);
    assert_eq!(Percent(50).apply(-3), -1);
    assert_eq!(Percent(-60).apply(400), -240);
}

#[test]
fn values_read_as_a_person_writes_them() {
    assert_eq!(Percent(60).to_string(), "60%");
    assert_eq!(Percent(-5).to_string(), "-5%");
    assert_eq!(Ticks(45).to_string(), "45 ticks");
    assert_eq!(Hundredths(-5).to_string(), "-0.05");
    assert_eq!(Hundredths(100).whole(), 1);
    assert!(Hundredths(0).is_zero());
    assert!(!Hundredths(1).is_zero());
}
