use btrfs_usage_monitor::btrfs::{extract_usage_human, extract_usage_raw, ParseError};

fn sample_raw() -> String {
    String::from(
        "Overall:\n    Device size:\t\t7000000000000\n    Device allocated:\t\t6000000000000\n    Free (estimated):\t\t681470000000\t(min: 681470000000)\n    Free (statfs, df):\t\t681470000000\n",
    )
}

fn sample_human() -> String {
    String::from(
        "Overall:\n    Device size:\t\t   6.37TiB\n    Free (estimated):\t\t 752.58GiB\t(min: 681.47GiB)\n",
    )
}

#[test]
fn raw_basic() {
    let u = extract_usage_raw(&sample_raw()).unwrap();
    assert_eq!(u.device_size, 7000000000000);
    assert_eq!(u.free, 681470000000);
}

#[test]
fn raw_first_match_wins() {
    let text = "Device size: 11\nDevice size: 22\nFree (estimated): 5 (min: 5)\nFree (estimated): 7 (min: 7)\n";
    let u = extract_usage_raw(text).unwrap();
    assert_eq!(u.device_size, 11);
    assert_eq!(u.free, 5);
}

#[test]
fn raw_unparsable_device_defaults_to_zero() {
    let text = "Device size: lots\nFree (estimated): 5 (min: 5)\n";
    let u = extract_usage_raw(text).unwrap();
    assert_eq!(u.device_size, 0);
    assert_eq!(u.free, 5);
}

#[test]
fn raw_unparsable_free_defaults_to_zero() {
    let text = "Device size: 1000\nFree (estimated): 1.2TiB (min: 1)\n";
    let u = extract_usage_raw(text).unwrap();
    assert_eq!(u.device_size, 1000);
    assert_eq!(u.free, 0);
}

#[test]
fn raw_overflowing_digits_default_to_zero() {
    let text = "Device size: 99999999999999999999999999\nFree (estimated): 5 (min: 5)\n";
    let u = extract_usage_raw(text).unwrap();
    assert_eq!(u.device_size, 0);
}

#[test]
fn raw_missing_device_size_fails() {
    let text = "Overall:\n    Free (estimated):\t\t681470000000\t(min: 681470000000)\n";
    let e = extract_usage_raw(text).unwrap_err();
    assert_eq!(e, ParseError::MissingDeviceSize);
    assert_eq!(
        e.message(),
        "parse error in filesystem data usage: at 'Device size' in raw bytes"
    );
}

#[test]
fn raw_missing_free_estimate_fails() {
    let text = "Overall:\n    Device size:\t\t7000000000000\n";
    let e = extract_usage_raw(text).unwrap_err();
    assert_eq!(e, ParseError::MissingFreeEstimatedRaw);
    assert_eq!(
        e.message(),
        "parse error in filesystem data usage: at 'Free (estimated)' in raw bytes"
    );
}

#[test]
fn raw_free_line_needs_parenthesis() {
    // The free-estimate label counts only together with a parenthesized
    // suffix; a bare value line is passed over in favour of a later full one.
    let text = "Device size: 10\nFree (estimated): 3\nFree (estimated): 4 (min: 2)\n";
    let u = extract_usage_raw(text).unwrap();
    assert_eq!(u.free, 4);
}

#[test]
fn raw_crlf_line_endings() {
    let text = "Device size: 1000\r\nFree (estimated): 600 (min: 500)\r\n";
    let u = extract_usage_raw(text).unwrap();
    assert_eq!(u.device_size, 1000);
    assert_eq!(u.free, 600);
}

#[test]
fn human_basic_trims_values() {
    let u = extract_usage_human(&sample_human()).unwrap();
    assert_eq!(u.free, "752.58GiB");
    assert_eq!(u.free_min, "681.47GiB");
}

#[test]
fn human_first_match_wins() {
    let text = "Free (estimated): 1.0GiB (min: 0.5GiB)\nFree (estimated): 2.0GiB (min: 1.5GiB)\n";
    let u = extract_usage_human(text).unwrap();
    assert_eq!(u.free, "1.0GiB");
    assert_eq!(u.free_min, "0.5GiB");
}

#[test]
fn human_missing_fails() {
    let text = "Overall:\n    Device size:\t\t   6.37TiB\n    Free (estimated):\t\t 752.58GiB\n";
    let e = extract_usage_human(text).unwrap_err();
    assert_eq!(e, ParseError::MissingFreeEstimatedHuman);
    assert_eq!(
        e.message(),
        "parse error in filesystem data usage: at 'Free (estimated)'"
    );
}

#[test]
fn human_empty_text_fails() {
    let e = extract_usage_human("").unwrap_err();
    assert_eq!(e, ParseError::MissingFreeEstimatedHuman);
}

#[test]
fn human_backtracks_to_earlier_complete_marker() {
    // The last "(min:" has no closing parenthesis after it, so the
    // earlier, complete marker decides the two captures.
    let text = "Free (estimated): a (min: b) x (min: c\n";
    let u = extract_usage_human(text).unwrap();
    assert_eq!(u.free, "a");
    assert_eq!(u.free_min, "b");
}

#[test]
fn human_takes_last_complete_marker() {
    let text = "Free (estimated): a (min: b) x (min: c)\n";
    let u = extract_usage_human(text).unwrap();
    assert_eq!(u.free, "a (min: b) x");
    assert_eq!(u.free_min, "c");
}

#[test]
fn human_incomplete_marker_alone_fails() {
    let text = "Free (estimated): a (min: b\n";
    let e = extract_usage_human(text).unwrap_err();
    assert_eq!(e, ParseError::MissingFreeEstimatedHuman);
}

#[test]
fn raw_accepts_leading_plus_sign() {
    let text = "Device size: +123\nFree (estimated): +5 (min: 5)\n";
    let u = extract_usage_raw(text).unwrap();
    assert_eq!(u.device_size, 123);
    assert_eq!(u.free, 5);
}

#[test]
fn raw_plus_sign_alone_defaults_to_zero() {
    let text = "Device size: +\nFree (estimated): ++5 (min: 5)\n";
    let u = extract_usage_raw(text).unwrap();
    assert_eq!(u.device_size, 0);
    assert_eq!(u.free, 0);
}

#[test]
fn raw_trims_unicode_whitespace() {
    let text = "Device size:\u{a0}42\u{2003}\nFree (estimated):\u{a0}5 (min: 5)\n";
    let u = extract_usage_raw(text).unwrap();
    assert_eq!(u.device_size, 42);
    assert_eq!(u.free, 5);
}

#[test]
fn human_trims_unicode_whitespace() {
    let text = "Free (estimated):\u{a0}1.0GiB\u{a0}(min:\u{a0}0.5GiB\u{a0})\n";
    let u = extract_usage_human(text).unwrap();
    assert_eq!(u.free, "1.0GiB");
    assert_eq!(u.free_min, "0.5GiB");
}

#[test]
fn raw_empty_text_fails_naming_device_size() {
    let e = extract_usage_raw("").unwrap_err();
    assert_eq!(e, ParseError::MissingDeviceSize);
}
