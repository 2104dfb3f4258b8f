use btrfs_usage_monitor::btrfs::{btrfs_usage, usage_warning, ParseError, UsageHuman, UsageRaw};

const PATH: &str = "/mnt/btrfs";

fn human(free: &str, free_min: &str) -> UsageHuman {
    UsageHuman { free: String::from(free), free_min: String::from(free_min) }
}

#[test]
fn warning_below_threshold() {
    let raw = UsageRaw { device_size: 1000, free: 50 };
    let w = usage_warning(PATH, 10, &raw, &human("752.58GiB", "681.47GiB"));
    assert_eq!(
        w,
        Some(String::from(
            "WARNING: /mnt/btrfs, free: 752.58GiB (min: 681.47GiB), 5% (limit: 10%)"
        ))
    );
}

#[test]
fn silent_above_threshold() {
    let raw = UsageRaw { device_size: 1000, free: 900 };
    let w = usage_warning(PATH, 10, &raw, &human("900B", "900B"));
    assert_eq!(w, None);
}

#[test]
fn zero_device_size_reports_error_message() {
    let raw = UsageRaw { device_size: 0, free: 0 };
    let expected = Some(String::from("ERROR: /mnt/btrfs: device size is 0"));
    assert_eq!(usage_warning(PATH, 0, &raw, &human("0B", "0B")), expected);
    assert_eq!(usage_warning(PATH, 10, &raw, &human("0B", "0B")), expected);
    assert_eq!(usage_warning(PATH, 255, &raw, &human("0B", "0B")), expected);
    let raw_nonzero_free = UsageRaw { device_size: 0, free: 12345 };
    assert_eq!(usage_warning(PATH, 10, &raw_nonzero_free, &human("12KiB", "10KiB")), expected);
}

#[test]
fn threshold_above_hundred_clamps_to_hundred() {
    let raw = UsageRaw { device_size: 1000, free: 500 };
    let h = human("500B", "400B");
    let at_200 = usage_warning(PATH, 200, &raw, &h);
    let at_100 = usage_warning(PATH, 100, &raw, &h);
    assert_eq!(at_200, at_100);
    assert_eq!(
        at_200,
        Some(String::from(
            "WARNING: /mnt/btrfs, free: 500B (min: 400B), 50% (limit: 100%)"
        ))
    );
}

#[test]
fn threshold_zero_never_warns() {
    let raw = UsageRaw { device_size: 1000, free: 0 };
    assert_eq!(usage_warning(PATH, 0, &raw, &human("0B", "0B")), None);
}

#[test]
fn equal_percentage_is_silent() {
    // The comparison is strict: free percentage equal to the threshold
    // produces no message.
    let raw = UsageRaw { device_size: 1000, free: 100 };
    assert_eq!(usage_warning(PATH, 10, &raw, &human("100B", "90B")), None);
}

#[test]
fn percentage_is_capped_at_hundred() {
    let raw = UsageRaw { device_size: 1, free: u64::MAX };
    assert_eq!(usage_warning(PATH, 100, &raw, &human("16EiB", "16EiB")), None);
}

#[test]
fn multiply_before_divide_keeps_precision() {
    // 50 * 100 / 10000 = 0; dividing first would also give 0, but
    // 9999 * 100 / 10000 = 99 shows the truncating multiply-first order.
    let raw = UsageRaw { device_size: 10000, free: 9999 };
    let w = usage_warning(PATH, 100, &raw, &human("9.9KiB", "9.9KiB")).unwrap();
    assert!(w.contains("99% (limit: 100%)"), "{}", w);
}

#[test]
fn raising_threshold_only_adds_warnings() {
    let raw = UsageRaw { device_size: 1000, free: 300 };
    let h = human("300B", "250B");
    let mut warned = false;
    for limit in 0..=255u8 {
        let w = usage_warning(PATH, limit, &raw, &h);
        if warned {
            assert!(w.is_some(), "limit {}", limit);
        }
        warned = w.is_some();
    }
}

#[test]
fn round_trip_from_report_texts() {
    let raw_text = "Overall:\n    Device size:\t\t7000000000000\n    Device allocated:\t\t6000000000000\n    Free (estimated):\t\t681470000000\t(min: 681470000000)\n    Free (statfs, df):\t\t681470000000\n";
    let human_text = "Overall:\n    Device size:\t\t   6.37TiB\n    Free (estimated):\t\t 752.58GiB\t(min: 681.47GiB)\n";
    let w = btrfs_usage(PATH, 10, raw_text, human_text).unwrap();
    assert_eq!(
        w,
        Some(String::from(
            "WARNING: /mnt/btrfs, free: 752.58GiB (min: 681.47GiB), 9% (limit: 10%)"
        ))
    );
}

#[test]
fn round_trip_silent_when_ample() {
    let raw_text = "Device size: 1000\nFree (estimated): 900 (min: 800)\n";
    let human_text = "Free (estimated): 900B (min: 800B)\n";
    assert_eq!(btrfs_usage(PATH, 10, raw_text, human_text).unwrap(), None);
}

#[test]
fn round_trip_zero_device_size() {
    let raw_text = "Device size: 0\nFree (estimated): 0 (min: 0)\n";
    let human_text = "Free (estimated): 0B (min: 0B)\n";
    let w = btrfs_usage(PATH, 10, raw_text, human_text).unwrap();
    assert_eq!(w, Some(String::from("ERROR: /mnt/btrfs: device size is 0")));
}

#[test]
fn error_order_names_device_size_first() {
    let e = btrfs_usage(PATH, 10, "no labels here\n", "nor here\n").unwrap_err();
    assert_eq!(e, ParseError::MissingDeviceSize);
}
