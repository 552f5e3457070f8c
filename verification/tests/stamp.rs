use aether::stamp::{format_stamp, now_iso};

#[test]
fn epoch_stamp() {
    assert_eq!(format_stamp(0), "1970-01-01 00:00:00");
}

#[test]
fn known_stamps() {
    assert_eq!(format_stamp(951_782_400), "2000-02-29 00:00:00");
    assert_eq!(format_stamp(1_700_000_000), "2023-11-14 22:13:20");
    assert_eq!(format_stamp(86_399), "1970-01-01 23:59:59");
    assert_eq!(format_stamp(68_169_600), "1972-02-29 00:00:00");
    assert_eq!(format_stamp(4_107_542_400), "2100-03-01 00:00:00");
    assert_eq!(format_stamp(4_107_456_000), "2100-02-28 00:00:00");
}

#[test]
fn years_past_four_digits_grow() {
    // 10000-01-01 00:00:00
    assert_eq!(format_stamp(253_402_300_800), "10000-01-01 00:00:00");
}

#[test]
fn now_stamp_has_the_stamp_shape() {
    let s = now_iso();
    let b = s.as_bytes();
    assert_eq!(b.len(), 19);
    assert_eq!(b[4], b'-');
    assert_eq!(b[7], b'-');
    assert_eq!(b[10], b' ');
    assert_eq!(b[13], b':');
    assert_eq!(b[16], b':');
    assert!(s.as_str() >= "2020");
}
