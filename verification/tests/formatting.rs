use statusline::cells::{format_credits_cell, format_savings_cell};
use statusline::compact::{format_count_compact, format_credits_compact, format_tokens};
use statusline::duration::format_duration_short;
use statusline::text::{display_width, pad_cell};

#[test]
fn test_format_credits_cell_sub_thousand() {
    let result = format_credits_cell("r/usg", 500, 800);
    assert!(result.contains("r/usg"));
    assert!(result.contains("500"));
    assert!(result.contains("800"));
    assert!(!result.contains("k"));
}

#[test]
fn test_format_credits_cell_thousands() {
    let result = format_credits_cell("r/usg", 6877, 17000);
    assert!(result.contains("r/usg"));
    assert!(result.contains("6.9k"));
    assert!(result.contains("17.0k"));
}

#[test]
fn test_format_credits_cell_remaining_not_used() {
    // used = limit - remaining; 10123 used of 17000 → remaining 6877
    let result = format_credits_cell("r/usg", 6877, 17000);
    assert!(result.contains("6.9k"));
    assert!(!result.contains("10.1k")); // should NOT show used amount
}

#[test]
fn test_format_credits_compact() {
    assert_eq!(format_credits_compact(0), "0");
    assert_eq!(format_credits_compact(999), "999");
    assert_eq!(format_credits_compact(1_000), "1.0k");
    assert_eq!(format_credits_compact(10_123), "10.1k");
    assert_eq!(format_credits_compact(17_000), "17.0k");
}

#[test]
fn test_display_width_strips_ansi() {
    assert_eq!(display_width("hello"), 5);
    assert_eq!(display_width("\x1b[90mhello\x1b[0m"), 5);
    assert_eq!(display_width("\x1b[38;5;208m  ctx\x1b[0m"), 5);
    assert_eq!(display_width("\x1b[32mfoo\x1b[0m \x1b[33mbar\x1b[0m"), 7);
}

#[test]
fn test_pad_cell_adds_trailing_space() {
    assert_eq!(pad_cell("ab", 5), "ab   ");
    assert_eq!(pad_cell("ab", 2), "ab");
    assert_eq!(pad_cell("ab", 1), "ab"); // no truncation
}

#[test]
fn test_pad_cell_respects_ansi() {
    let input = "\x1b[32mab\x1b[0m";
    let padded = pad_cell(input, 5);
    assert_eq!(display_width(&padded), 5);
    assert!(padded.ends_with("   "));
}

#[test]
fn test_format_savings_cell() {
    let result = format_savings_cell("save", 141_902_121);
    assert!(result.contains("save"));
    assert!(result.contains("141.9M"));
}

#[test]
fn test_format_savings_cell_d_avg_label() {
    let result = format_savings_cell("d/avg", 18_000_000);
    assert!(result.contains("d/avg"));
    assert!(result.contains("18.0M"));
}

#[test]
fn test_format_duration_short() {
    assert_eq!(format_duration_short(432000), "5d");
    assert_eq!(format_duration_short(90000), "1d");
    assert_eq!(format_duration_short(86400), "1d");
    assert_eq!(format_duration_short(7200), "2h");
    assert_eq!(format_duration_short(3660), "1h");
    assert_eq!(format_duration_short(3600), "1h");
    assert_eq!(format_duration_short(1800), "30m");
    assert_eq!(format_duration_short(60), "1m");
    assert_eq!(format_duration_short(59), "59s");
    assert_eq!(format_duration_short(30), "30s");
    assert_eq!(format_duration_short(0), "0s");
    assert_eq!(format_duration_short(-5), "0s");
}

#[test]
fn test_format_count_compact() {
    assert_eq!(format_count_compact(0), "0");
    assert_eq!(format_count_compact(999), "999");
    assert_eq!(format_count_compact(1_000), "1.0k");
    assert_eq!(format_count_compact(10_123), "10.1k");
    assert_eq!(format_count_compact(17_000), "17.0k");
    assert_eq!(format_count_compact(1_000_000), "1.0M");
    assert_eq!(format_count_compact(127_838_046), "127.8M");
    assert_eq!(format_count_compact(141_902_121), "141.9M");
    assert_eq!(format_count_compact(2_500_000_000), "2.5B");
}

#[test]
fn format_tokens_examples() {
    assert_eq!(format_tokens(0), "0.0k");
    assert_eq!(format_tokens(500), "0.5k");
    assert_eq!(format_tokens(9_949), "9.9k");
    assert_eq!(format_tokens(12_345), "12k");
    assert_eq!(format_tokens(99_499), "99k");
    assert_eq!(format_tokens(128_000), "128k");
    assert_eq!(format_tokens(100_500), "101k");
}

#[test]
fn format_credits_cell_layout() {
    assert_eq!(
        format_credits_cell("ab", 100, 1000),
        "\x1b[90m   ab\x1b[0m \x1b[31m100\x1b[90m/1.0k\x1b[0m"
    );
    assert_eq!(
        format_credits_cell("longer", 900, 1000),
        "\x1b[90mlonger\x1b[0m \x1b[32m900\x1b[90m/1.0k\x1b[0m"
    );
    assert_eq!(
        format_credits_cell("x", 300, 1000),
        "\x1b[90m    x\x1b[0m \x1b[38;5;208m300\x1b[90m/1.0k\x1b[0m"
    );
    assert_eq!(
        format_credits_cell("x", 500, 1000),
        "\x1b[90m    x\x1b[0m \x1b[33m500\x1b[90m/1.0k\x1b[0m"
    );
    assert_eq!(
        format_credits_cell("x", 5, 0),
        "\x1b[90m    x\x1b[0m \x1b[32m5\x1b[90m/0\x1b[0m"
    );
}
