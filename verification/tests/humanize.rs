//! Humanization boundaries for byte counts and ages.

use hiercmd::humanize::{humanize_age, humanize_bytes};

#[test]
fn byte_boundaries() {
    assert_eq!(humanize_bytes(0, false), "0");
    assert_eq!(humanize_bytes(1023, false), "1023");
    assert_eq!(humanize_bytes(1024, false), "1.00K");
    assert_eq!(humanize_bytes(1536, false), "1.50K");
    assert_eq!(humanize_bytes(1048576, false), "1.00M");
    assert_eq!(humanize_bytes(1073741824, false), "1.00G");
    assert_eq!(humanize_bytes(2146933931, false), "2.00G");
}

#[test]
fn byte_parseable_always_raw() {
    assert_eq!(humanize_bytes(1023, true), "1023");
    assert_eq!(humanize_bytes(1024, true), "1024");
    assert_eq!(humanize_bytes(1048576, true), "1048576");
    assert_eq!(humanize_bytes(1073741824, true), "1073741824");
    assert_eq!(humanize_bytes(18446744073709551615, true), "18446744073709551615");
}

#[test]
fn age_boundaries() {
    assert_eq!(humanize_age(47, false), "47s");
    assert_eq!(humanize_age(803, false), "13m23s");
    assert_eq!(humanize_age(48240, false), "13h24m");
    assert_eq!(humanize_age(3 * 86400 + 7 * 3600, false), " 3d07h");
    assert_eq!(humanize_age(86401, false), " 1d00h");
    assert_eq!(humanize_age(100 * 86400, false), " 3M10d");
    assert_eq!(humanize_age(400 * 86400, false), " 1y01M");
}

#[test]
fn age_parseable_always_raw() {
    assert_eq!(humanize_age(47, true), "47");
    assert_eq!(humanize_age(86401, true), "86401");
    assert_eq!(humanize_age(400 * 86400, true), "34560000");
}

#[test]
fn whitespace_table_matches_std() {
    for u in 0..=0x10FFFFu32 {
        if let Some(c) = char::from_u32(u) {
            assert_eq!(
                hiercmd::text::wspace(c),
                c.is_whitespace(),
                "disagreement at U+{u:04X}"
            );
        }
    }
}
