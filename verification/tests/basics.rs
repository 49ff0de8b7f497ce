use eu4views::dates::Date;
use eu4views::losses::{decode, decode_losses, SENTINEL_MAX};
use eu4views::tags::Tag;

#[test]
fn day_index_counts_days_from_year_zero() {
    let d = Date::new(1444, 11, 11);
    assert_eq!(d.day_index(), 1444 * 365 + 304 + 10);
    let jan1 = Date::new(0, 1, 1);
    assert_eq!(jan1.day_index(), 0);
}

#[test]
fn days_until_spans_whole_years_and_orders_dates() {
    let a = Date::new(1444, 11, 11);
    let b = Date::new(1445, 11, 11);
    assert_eq!(a.days_until(&b), 365);
    assert_eq!(b.days_until(&a), -365);
    assert!(a.lt(&b));
    assert!(a.le(&b));
    assert!(!b.le(&a));
}

#[test]
fn tags_pack_ascii_bytes() {
    let swe = Tag::from_ascii(b'S', b'W', b'E', 0);
    let swe2 = Tag::from_ascii(b'S', b'W', b'E', 0);
    let dan = Tag::from_ascii(b'D', b'A', b'N', 0);
    assert_eq!(swe, swe2);
    assert_ne!(swe, dan);
    assert_eq!(Tag::no_entity(), Tag::from_ascii(b'-', b'-', b'-', 0));
}

#[test]
fn losses_decode_identity_on_non_negative() {
    assert_eq!(decode(0), 0);
    assert_eq!(decode(5), 5);
    assert_eq!(decode(i32::MAX), i32::MAX as u32);
}

#[test]
fn losses_decode_wraps_sentinel_band() {
    // the documented band decodes to the entry plus twice the sentinel bound
    assert_eq!(decode(-1), (2 * SENTINEL_MAX - 1) as u32);
    assert_eq!(decode(-SENTINEL_MAX), SENTINEL_MAX as u32);
    // below the band, the magnitude is taken
    assert_eq!(decode(-SENTINEL_MAX - 1), (SENTINEL_MAX + 1) as u32);
    assert_eq!(decode(i32::MIN), 2147483648);
}

#[test]
fn losses_vector_pads_to_21_categories() {
    let raw = vec![3, -1];
    let dec = decode_losses(&raw);
    assert_eq!(dec.len(), 21);
    assert_eq!(dec[0], 3);
    assert_eq!(dec[1], (2 * SENTINEL_MAX - 1) as u32);
    for c in 2..21 {
        assert_eq!(dec[c], 0);
    }
}
