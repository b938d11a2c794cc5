use ploscaru::stats::collect;
use ploscaru::stats::format_mb;
use ploscaru::stats::heap_bytes;
use ploscaru::stats::linux_rss_bytes;
use ploscaru::stats::parse_u64;

#[test]
fn format_mb_renders_two_decimals() {
    assert_eq!(format_mb(0), "0.00 MB");
    assert_eq!(format_mb(1048576), "1.00 MB");
    assert_eq!(format_mb(1572864), "1.50 MB");
    assert_eq!(format_mb(10 * 1048576), "10.00 MB");
}

#[test]
fn format_mb_rounds_half_to_even() {
    // 131072 bytes is exactly 0.125 MiB: the tie rounds down to the even
    // hundredth.
    assert_eq!(format_mb(131072), "0.12 MB");
    // 393216 bytes is exactly 0.375 MiB: the tie rounds up to the even
    // hundredth.
    assert_eq!(format_mb(393216), "0.38 MB");
}

#[test]
fn heap_bytes_saturates_and_takes_high_water() {
    assert_eq!(heap_bytes(2048, 1024), (1024, 2048));
    assert_eq!(heap_bytes(100, 500), (0, 100));
    assert_eq!(heap_bytes(0, 0), (0, 0));
}

#[test]
fn parse_u64_accepts_digits_only() {
    assert_eq!(parse_u64("0"), Some(0));
    assert_eq!(parse_u64("1234567"), Some(1234567));
    assert_eq!(parse_u64("18446744073709551615"), Some(u64::MAX));
    assert_eq!(parse_u64("18446744073709551616"), None);
    assert_eq!(parse_u64(""), None);
    assert_eq!(parse_u64("12a"), None);
    assert_eq!(parse_u64("-1"), None);
}

#[test]
fn linux_rss_reads_second_statm_field() {
    assert_eq!(linux_rss_bytes("1234 567 89 0 0 0 0", 4096), Some(567 * 4096));
    assert_eq!(linux_rss_bytes("  12  34  ", 4096), Some(34 * 4096));
    assert_eq!(linux_rss_bytes("12", 4096), None);
    assert_eq!(linux_rss_bytes("12 abc", 4096), None);
    assert_eq!(linux_rss_bytes("1234 567", 0), None);
    assert_eq!(linux_rss_bytes("1234 567", -1), None);
    assert_eq!(
        linux_rss_bytes("1 18446744073709551615", 4096),
        Some(u64::MAX)
    );
}

#[test]
fn collect_reports_all_three_figures() {
    let r = collect(2 * 1048576, 1048576, None, None);
    assert_eq!(r.runtime, "rust/axum");
    assert_eq!(r.memory.heap_used, "1.00 MB");
    assert_eq!(r.memory.heap_total, "2.00 MB");
    // Without any resident-set reading the larger heap figure stands in.
    assert_eq!(r.memory.rss, "2.00 MB");

    let r = collect(2 * 1048576, 1048576, Some(3 * 1048576), None);
    assert_eq!(r.memory.rss, "3.00 MB");

    let r = collect(2 * 1048576, 1048576, None, Some(4 * 1048576));
    assert_eq!(r.memory.rss, "4.00 MB");
}
