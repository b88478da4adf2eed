use alertbot::clock::{classify_instant, current_instant};

#[test]
fn the_clock_reads_a_plausible_instant() {
    let now = current_instant().expect("the system clock should be in range");
    // after 2020-01-01 and within the library's supported range
    assert!(now > 1_577_836_800);
    assert!(now <= 2_928_029 * 86400 - 50400);
}

#[test]
fn classify_instant_keeps_exactly_the_supported_range() {
    assert_eq!(classify_instant(1_000_000_000), Some(1_000_000_000));
    assert_eq!(classify_instant(43200), Some(43200));
    assert_eq!(classify_instant(43199), None);
    assert_eq!(classify_instant(0), None);
    assert_eq!(classify_instant(-5), None);
    assert_eq!(classify_instant(2_928_029 * 86400 - 50400), Some(2_928_029 * 86400 - 50400));
    assert_eq!(classify_instant(2_928_029 * 86400 - 50399), None);
    assert_eq!(classify_instant(i64::MAX), None);
}
