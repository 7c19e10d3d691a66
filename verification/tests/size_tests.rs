use dirscan::parse_size;

#[test]
fn round_trips_plain_integers() {
    let samples: Vec<u64> = vec![0, 1, 9, 10, 42, 999, 1024, 123456789, u64::MAX];
    for n in samples {
        assert_eq!(parse_size(&format!("{}", n)), n);
    }
}

#[test]
fn fractional_kilobytes() {
    assert_eq!(parse_size("1.5K"), 1536);
}

#[test]
fn whole_megabytes() {
    assert_eq!(parse_size("2M"), 2097152);
}

#[test]
fn dash_means_zero() {
    assert_eq!(parse_size("-"), 0);
}

#[test]
fn empty_means_zero() {
    assert_eq!(parse_size(""), 0);
}

#[test]
fn directory_placeholder_means_zero() {
    assert_eq!(parse_size("Directory"), 0);
}

#[test]
fn plain_kilobytes() {
    assert_eq!(parse_size("10K"), 10240);
}

#[test]
fn lower_case_units() {
    assert_eq!(parse_size("3t"), 3 * 1024 * 1024 * 1024 * 1024);
    assert_eq!(parse_size("7g"), 7 * 1024 * 1024 * 1024);
    assert_eq!(parse_size("5m"), 5 * 1024 * 1024);
    assert_eq!(parse_size("2k"), 2048);
}

#[test]
fn surrounding_whitespace_is_trimmed() {
    assert_eq!(parse_size("  42  "), 42);
    assert_eq!(parse_size("\t1.5K\n"), 1536);
}

#[test]
fn truncates_toward_zero() {
    assert_eq!(parse_size("1.9"), 1);
    assert_eq!(parse_size("0.999K"), 1022);
}

#[test]
fn malformed_numbers_mean_zero() {
    assert_eq!(parse_size("1.2.3"), 0);
    assert_eq!(parse_size("abc"), 0);
    assert_eq!(parse_size("."), 0);
    assert_eq!(parse_size(".K"), 0);
}

#[test]
fn trailing_and_leading_points() {
    assert_eq!(parse_size("5."), 5);
    assert_eq!(parse_size(".5K"), 512);
}

#[test]
fn unknown_suffix_multiplies_by_one() {
    assert_eq!(parse_size("7KB"), 7);
    assert_eq!(parse_size("1,5K"), 1);
}

#[test]
fn huge_values_clamp() {
    assert_eq!(parse_size("99999999999999999999999999"), u64::MAX);
    assert_eq!(parse_size("99999999999999999999T"), u64::MAX);
}
