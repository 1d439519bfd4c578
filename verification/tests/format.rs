use wasm_utils::{format_bytes, format_time};

#[test]
fn zero_bytes_whatever_decimals() {
    assert_eq!(format_bytes(0, 0), "0 Bytes");
    assert_eq!(format_bytes(0, 2), "0 Bytes");
    assert_eq!(format_bytes(0, 17), "0 Bytes");
}

#[test]
fn one_kilobyte() {
    assert_eq!(format_bytes(1024, 2), "1 KB");
}

#[test]
fn one_and_a_half_kilobytes() {
    assert_eq!(format_bytes(1536, 1), "1.5 KB");
}

#[test]
fn one_megabyte() {
    assert_eq!(format_bytes(1048576, 0), "1 MB");
}

#[test]
fn small_counts_stay_bytes() {
    assert_eq!(format_bytes(1, 2), "1 Bytes");
    assert_eq!(format_bytes(1023, 2), "1023 Bytes");
}

#[test]
fn rounding_is_half_away_from_zero() {
    // 1536 / 1024 == 1.5, which rounds up at zero decimals.
    assert_eq!(format_bytes(1536, 0), "2 KB");
}

#[test]
fn rounding_can_reach_the_next_thousand() {
    // 1048575 / 1024 == 1023.999..., which rounds to 1024 without changing unit.
    assert_eq!(format_bytes(1048575, 0), "1024 KB");
}

#[test]
fn fractional_digits_keep_interior_zeros() {
    // 1100 / 1024 == 1.07421875.
    assert_eq!(format_bytes(1100, 2), "1.07 KB");
}

#[test]
fn trailing_fraction_zeros_are_dropped() {
    // 1126 / 1024 == 1.099609375, which rounds to 1.10 at two decimals.
    assert_eq!(format_bytes(1126, 2), "1.1 KB");
}

#[test]
fn gigabytes_and_beyond() {
    assert_eq!(format_bytes(1073741824, 0), "1 GB");
    assert_eq!(format_bytes(1099511627776, 0), "1 TB");
    assert_eq!(format_bytes(u64::MAX, 0), "16 EB");
}

#[test]
fn time_one_minute_five() {
    assert_eq!(format_time(65), "1:05");
}

#[test]
fn time_under_a_minute() {
    assert_eq!(format_time(59), "0:59");
}

#[test]
fn time_sixty_minutes() {
    assert_eq!(format_time(3600), "60:00");
}

#[test]
fn time_edges() {
    assert_eq!(format_time(0), "0:00");
    assert_eq!(format_time(3599), "59:59");
    assert_eq!(format_time(60), "1:00");
}

#[test]
fn add_sums() {
    assert_eq!(wasm_utils::add(2, 3), 5);
    assert_eq!(wasm_utils::add(0, 0), 0);
    assert_eq!(wasm_utils::add(41, 1), 42);
}
