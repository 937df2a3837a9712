use statusline::cells::{context_percent_exec, format_percent_cell, render_bar_cell};
use statusline::compact::{format_count_compact, format_credits_compact};
use statusline::git::{branch_from_output, inside_work_tree};
use statusline::path::fish_shorten_path;
use statusline::session::{format_session_span, get_session_duration, parse_timestamp, TimestampValue};
use statusline::cells::render_cost_cell;
use statusline::statusline::{read_input, render_statusline, ApiStatus, ContextUsage, SessionJson, StatusInput};
use statusline::text::{display_width, pad_cell};

#[test]
fn fish_shorten_path_examples() {
    assert_eq!(fish_shorten_path("/home/u/.config/fish", "/home/u"), "~/.c/fish");
    assert_eq!(fish_shorten_path("/usr/local/bin", "/home/u"), "/u/l/bin");
    assert_eq!(fish_shorten_path("project", "/home/u"), "project");
    assert_eq!(fish_shorten_path("/home/u", "/home/u"), "~");
    assert_eq!(fish_shorten_path("/a/b/", "/home/u"), "/a/b/");
    assert_eq!(fish_shorten_path("/home/u/x/home/u/y", "/home/u"), "~/x/y");
    assert_eq!(fish_shorten_path("/home/u/x//home/u/y", "/home/u"), "~/x/~/y");
    assert_eq!(fish_shorten_path("/.hidden/dir", "/home/u"), "/.h/dir");
    assert_eq!(fish_shorten_path("/./x", "/home/u"), "/./x");
}

#[test]
fn fish_shorten_path_empty_home_matches_everywhere() {
    // str::replace with an empty pattern inserts the replacement around every character
    assert_eq!(fish_shorten_path("ab", ""), "ab".replace("", "~"));
    assert_eq!(fish_shorten_path("ab", ""), "~a~b~");
    assert_eq!(fish_shorten_path("a/b", ""), "~/~b~");
}

#[test]
fn fish_shorten_path_twice_changes_nothing() {
    for path in ["/home/u/.config/fish", "/usr/local/bin", "/a/b/", "x", "/home/u", "~/.x/y"] {
        let once = fish_shorten_path(path, "/home/u");
        assert_eq!(fish_shorten_path(&once, "/home/u"), once);
    }
}

#[test]
fn percent_cell_shows_at_most_hundred() {
    for used in [0u64, 50, 199_999, 200_000, 200_001, u64::MAX] {
        let cell = format_percent_cell("c", context_percent_exec(200_000, used), None);
        assert_eq!(cell.matches('\u{2588}').count() + cell.matches('\u{2591}').count(), 5);
    }
    let full = format_percent_cell("c", context_percent_exec(10, 1_000), None);
    assert!(full.contains("100\x1b[90m%"));
}

#[test]
fn fish_shorten_path_keeps_last_component() {
    for (path, home) in [("/srv/www/site", "/root"), ("/root/a/b/c", "/root"), ("x/y", "")] {
        let replaced = path.replace(home, "~");
        let last = replaced.rsplit('/').next().unwrap();
        assert!(fish_shorten_path(path, home).ends_with(last));
    }
}

#[test]
fn git_output_readings() {
    assert!(inside_work_tree(true, "true\n"));
    assert!(!inside_work_tree(true, "false\n"));
    assert!(!inside_work_tree(false, "true\n"));
    assert_eq!(branch_from_output(true, "  main\n"), "main");
    assert_eq!(branch_from_output(false, "main\n"), "");
    assert_eq!(branch_from_output(true, "\u{3000}feature/x\t"), "feature/x");
}

#[test]
fn pad_cell_width_law_examples() {
    for s in ["", "ab", "\x1b[31mred\x1b[0m", "wide text here", "\x1b[90m"] {
        for target in 0..20usize {
            let padded = pad_cell(s, target);
            assert!(padded.starts_with(s));
            assert_eq!(display_width(&padded), display_width(s).max(target));
        }
    }
    // an escape sequence left open swallows the padding
    assert_eq!(display_width(&pad_cell("\x1b[3", 4)), 0);
}

#[test]
fn counts_and_credits_agree_below_a_million() {
    for n in (0..1_000_000u64).step_by(97) {
        assert_eq!(format_count_compact(n), format_credits_compact(n));
    }
    assert_eq!(format_count_compact(999_999), format_credits_compact(999_999));
    assert_ne!(format_count_compact(1_000_000), format_credits_compact(1_000_000));
}

#[test]
fn bar_cell_layout() {
    assert_eq!(
        render_bar_cell("ctx", 3, 60, "\x1b[33m", None),
        "ctx \x1b[90m\u{2588}\u{2588}\u{2588}\u{2591}\u{2591}\x1b[0m \x1b[33m60\x1b[90m%\x1b[0m"
    );
    assert_eq!(
        render_bar_cell("5h", 2, 35, "\x1b[90m", Some(7200)),
        "5h \x1b[90m\u{2588}\u{2588}\u{2591}\u{2591}\u{2591}\x1b[0m \x1b[90m35\x1b[90m%\x1b[0m \x1b[90m2h\x1b[0m"
    );
    let full = render_bar_cell("7d", 5, 100, "\x1b[31m", Some(-30));
    assert_eq!(full.matches('\u{2588}').count(), 5);
    assert_eq!(full.matches('\u{2591}').count(), 0);
    assert!(full.ends_with(" \x1b[90m0s\x1b[0m"));
}

fn lines(texts: &[&str]) -> Vec<String> {
    texts.iter().map(|t| t.to_string()).collect()
}

#[test]
fn parse_timestamp_kinds() {
    assert_eq!(parse_timestamp(&TimestampValue::Integer(5)), Some(5));
    assert_eq!(
        parse_timestamp(&TimestampValue::Text("2024-01-01T00:00:00Z".to_string())),
        Some(1_704_067_200_000)
    );
    assert_eq!(
        parse_timestamp(&TimestampValue::Text("2024-01-01T01:00:00.250+01:00".to_string())),
        Some(1_704_067_200_250)
    );
    assert_eq!(parse_timestamp(&TimestampValue::Text("yesterday".to_string())), None);
    assert_eq!(parse_timestamp(&TimestampValue::Other), None);
}

#[test]
fn session_duration_from_timestamps() {
    let transcript = lines(&[
        r#"{"timestamp":"2024-01-01T00:00:00Z","type":"user"}"#,
        "",
        r#"{"x":1}"#,
        "not json",
        r#"{"timestamp":"2024-01-01T02:05:30Z"}"#,
        "   ",
    ]);
    assert_eq!(get_session_duration(&transcript).as_deref(), Some("2h5m"));

    let minutes = lines(&[r#"{"timestamp":0}"#, r#"{"timestamp":90000}"#]);
    assert_eq!(get_session_duration(&minutes).as_deref(), Some("1m"));

    let short = lines(&[r#"{"timestamp":0}"#, r#"{"timestamp":59999}"#]);
    assert_eq!(get_session_duration(&short).as_deref(), Some("<1m"));

    let backwards = lines(&[r#"{"timestamp":90000000}"#, r#"{"timestamp":0}"#]);
    assert_eq!(get_session_duration(&backwards).as_deref(), Some("<1m"));

    let mixed = lines(&[r#"{"timestamp":"1970-01-01T00:00:00Z"}"#, r#"{"timestamp":7260000}"#]);
    assert_eq!(get_session_duration(&mixed).as_deref(), Some("2h1m"));
}

#[test]
fn session_duration_absent() {
    let one = lines(&[r#"{"timestamp":0}"#, "  "]);
    assert_eq!(get_session_duration(&one), None);
    let no_stamp = lines(&[r#"{"a":0}"#, "[1,2]"]);
    assert_eq!(get_session_duration(&no_stamp), None);
    let bad_first = lines(&[r#"{"timestamp":"bad"}"#, r#"{"timestamp":5}"#]);
    assert_eq!(get_session_duration(&bad_first), None);
    let float_last = lines(&[r#"{"timestamp":5}"#, r#"{"timestamp":1.5}"#]);
    assert_eq!(get_session_duration(&float_last), None);
    let overflow = lines(&[
        r#"{"timestamp":-9223372036854775808}"#,
        r#"{"timestamp":9223372036854775807}"#,
    ]);
    assert_eq!(get_session_duration(&overflow), None);
}

#[test]
fn session_duration_skips_lines_without_timestamp() {
    let transcript = lines(&[
        "garbage",
        r#"{"timestamp":60000}"#,
        r#"{"other":true}"#,
        r#"{"timestamp":180000}"#,
        r#"{"timestamp":null}"#,
    ]);
    // the last line has a timestamp that does not read
    assert_eq!(get_session_duration(&transcript), None);
    let transcript = lines(&["garbage", r#"{"timestamp":60000}"#, r#"{"timestamp":180000}"#, "{"]);
    assert_eq!(get_session_duration(&transcript).as_deref(), Some("2m"));
}

#[test]
fn session_span_text() {
    assert_eq!(format_session_span(0, 3_600_000 * 3 + 60_000 * 7), "3h7m");
    assert_eq!(format_session_span(0, 3_600_000), "1h0m");
    assert_eq!(format_session_span(1_000, 1_000 + 60_000 * 59), "59m");
    assert_eq!(format_session_span(5, 5), "<1m");
}

fn base_input() -> StatusInput {
    StatusInput {
        session: SessionJson {
            current_dir: Some("/home/u/proj".to_string()),
            model: Some("Opus".to_string()),
            output_style: None,
            has_cost: true,
            total_lines_added: Some(10),
            total_lines_removed: Some(2),
            context: None,
        },
        home: "/home/u".to_string(),
        branch: "main".to_string(),
        total_cost_text: Some("\x1b[32m1.50".to_string()),
        rate_limit_cells: vec!["CTX".to_string()],
        api_status: None,
    }
}

#[test]
fn statusline_with_branch_model_and_cost() {
    assert_eq!(
        render_statusline(&base_input()),
        "\x1b[36m~/proj\x1b[0m \x1b[38;5;12m\u{f02a2} \x1b[32mmain(\x1b[32m+10\x1b[0m \x1b[31m-2\x1b[0m)\x1b[0m \x1b[90m• \x1b[0m\x1b[38;5;208mOpus \x1b[90m• \x1b[33m\u{f155}\x1b[0m \x1b[32m1.50\x1b[0m\nCTX"
    );
}

#[test]
fn statusline_missing_directory() {
    let mut input = base_input();
    input.session.current_dir = None;
    assert_eq!(
        render_statusline(&input),
        "\x1b[31m\u{f071} missing workspace.current_dir\x1b[0m"
    );
}

#[test]
fn statusline_outside_git_without_model() {
    let mut input = base_input();
    input.branch = String::new();
    input.session.model = None;
    input.session.has_cost = false;
    input.rate_limit_cells = vec![];
    input.session.current_dir = Some("/tmp/a dir ".to_string());
    assert_eq!(render_statusline(&input), "\x1b[36m/t/a dir\x1b[0m");
}

#[test]
fn statusline_with_extra_usage_and_savings() {
    let mut input = base_input();
    input.session.output_style = Some("Explanatory".to_string());
    input.rate_limit_cells = vec!["A".to_string(), "B".to_string()];
    input.api_status = Some(ApiStatus {
        extra_usage_enabled: Some(true),
        extra_usage_used: Some(1200),
        extra_usage_monthly_limit: Some(1000),
        combined_saved: Some(141_902_121),
        this_week_saved: None,
        last_week_saved: Some(0),
        burn_rate_daily: Some(18_000_000),
    });
    let expected = String::new()
        + "\x1b[36m~/proj\x1b[0m \x1b[38;5;12m\u{f02a2} \x1b[32mmain(\x1b[32m+10\x1b[0m \x1b[31m-2\x1b[0m)\x1b[0m"
        + " \x1b[90m• \x1b[0m\x1b[38;5;208mOpus \x1b[90m(Explanatory)\x1b[0m"
        + " \x1b[90m• \x1b[38;5;208m\u{f155}\u{f155}\x1b[0m \x1b[31m1.2k\x1b[90m/1.0k\x1b[0m"
        + "\nA \x1b[90m\u{2022}\x1b[0m B"
        + " \x1b[90m\u{2022}\x1b[0m \x1b[38;5;10m\u{f0c7}\x1b[0m \x1b[32m141.9M\x1b[0m"
        + " \x1b[90m\u{2022}\x1b[0m \x1b[90mwk\x1b[0m \x1b[32m0\x1b[0m"
        + " \x1b[90m\u{2022}\x1b[0m \x1b[90md/avg\x1b[0m \x1b[32m18.0M\x1b[0m";
    assert_eq!(render_statusline(&input), expected);
}

#[test]
fn statusline_extra_usage_disabled_falls_back_to_cost() {
    let mut input = base_input();
    input.api_status = Some(ApiStatus {
        extra_usage_enabled: Some(false),
        extra_usage_used: Some(1),
        extra_usage_monthly_limit: Some(2),
        combined_saved: None,
        this_week_saved: None,
        last_week_saved: Some(3),
        burn_rate_daily: None,
    });
    let out = render_statusline(&input);
    assert!(out.contains("\x1b[32m1.50\x1b[0m"));
    assert!(out.ends_with("\nCTX \x1b[90m\u{2022}\x1b[0m \x1b[38;5;10m\u{f0c7}\x1b[0m \x1b[32m0\x1b[0m \x1b[90m\u{2022}\x1b[0m \x1b[90mwk\x1b[0m \x1b[32m0\x1b[0m \x1b[90m\u{2022}\x1b[0m \x1b[90mprev\x1b[0m \x1b[32m3\x1b[0m \x1b[90m\u{2022}\x1b[0m \x1b[90md/avg\x1b[0m \x1b[32m0\x1b[0m"));
}

/// `format_bar_cell` on a float percentage, without a reset time.
fn bar_cell_reference(label: &str, pct: f64) -> String {
    let pct = pct.clamp(0.0, 100.0);
    let color = if pct >= 90.0 {
        "\x1b[31m"
    } else if pct >= 70.0 {
        "\x1b[38;5;208m"
    } else if pct >= 50.0 {
        "\x1b[33m"
    } else {
        "\x1b[90m"
    };
    let filled = (pct * 5 as f64 / 100.0).round() as usize;
    let empty = 5usize.saturating_sub(filled);
    let bar: String = "\u{2588}".repeat(filled) + &"\u{2591}".repeat(empty);
    format!("{} \x1b[90m{}\x1b[0m {}{}\x1b[90m%\x1b[0m", label, bar, color, pct.round() as u32)
}

fn context_reference(window: u64, used: u64) -> f64 {
    if window > 0 {
        ((used as f64 * 100.0) / window as f64).min(100.0)
    } else {
        0.0
    }
}

#[test]
fn context_cell_agrees_with_float_rendering() {
    let mut windows: Vec<u64> = vec![0, 1, 3, 7, 100, 200_000, 1_000_000, u64::MAX];
    let mut x: u64 = 7;
    for _ in 0..300 {
        x = x.wrapping_mul(6364136223846793005).wrapping_add(1442695040888963407);
        windows.push(x >> 40);
        windows.push(x >> 20);
    }
    for w in windows {
        let mut useds: Vec<u64> = vec![0, 1, w / 2, w / 10 * 9, w / 20 * 19, w, w.saturating_add(5), u64::MAX];
        for k in 0..=200u64 {
            useds.push((w / 200).saturating_mul(k));
            useds.push(((w as u128) * (k as u128) / 200) as u64);
        }
        for used in useds {
            let ours = format_percent_cell("ctx", context_percent_exec(w, used), None);
            let theirs = bar_cell_reference("ctx", context_reference(w, used));
            assert_eq!(ours, theirs, "window {} used {}", w, used);
        }
    }
}

#[test]
fn statusline_with_context_window() {
    let mut input = base_input();
    input.session.context = Some(ContextUsage {
        context_window_size: None,
        input_tokens: Some(100_000),
        cache_creation_input_tokens: Some(20_000),
        cache_read_input_tokens: None,
    });
    let out = render_statusline(&input);
    let ctx = "\x1b[38;5;13m\u{f49b}\x1b[0m \x1b[90m\u{2588}\u{2588}\u{2588}\u{2591}\u{2591}\x1b[0m \x1b[33m60\x1b[90m%\x1b[0m";
    let expected_tail = String::from("\n") + ctx + " \x1b[90m\u{2022}\x1b[0m CTX";
    assert!(out.ends_with(&expected_tail), "{:?}", out);
}

#[test]
fn read_input_fields() {
    let text = r#"{
        "workspace": {"current_dir": "/home/u/proj"},
        "model": {"display_name": "Opus"},
        "output_style": {"name": "default"},
        "cost": {"total_lines_added": 10, "total_lines_removed": 2.5, "total_cost_usd": 1.5},
        "context_window": {"context_window_size": 100000, "current_usage": {"input_tokens": 7, "cache_read_input_tokens": 3}}
    }"#;
    let s = read_input(text);
    assert_eq!(s.current_dir.as_deref(), Some("/home/u/proj"));
    assert_eq!(s.model.as_deref(), Some("Opus"));
    assert_eq!(s.output_style.as_deref(), Some("default"));
    assert!(s.has_cost);
    assert_eq!(s.total_lines_added, Some(10));
    assert_eq!(s.total_lines_removed, None);
    let c = s.context.expect("context window");
    assert_eq!(c.context_window_size, Some(100000));
    assert_eq!(c.input_tokens, Some(7));
    assert_eq!(c.cache_creation_input_tokens, None);
    assert_eq!(c.cache_read_input_tokens, Some(3));
}

#[test]
fn read_input_without_fields() {
    for text in ["", "not json", "[1, 2]", "{}", r#"{"workspace": "x", "model": {"display_name": 3}}"#] {
        let s = read_input(text);
        assert!(s.current_dir.is_none() && s.model.is_none() && s.output_style.is_none());
        assert!(!s.has_cost && s.total_lines_added.is_none() && s.total_lines_removed.is_none());
        assert!(s.context.is_none());
    }
    let s = read_input(r#"{"context_window": {}, "cost": null}"#);
    assert!(s.has_cost);
    let c = s.context.expect("context window");
    assert!(c.context_window_size.is_none() && c.input_tokens.is_none());
}

#[test]
fn statusline_from_session_text() {
    let text = r#"{"workspace": {"current_dir": "/home/u/proj"}, "model": {"display_name": "Opus"},
                   "cost": {"total_lines_added": 10, "total_lines_removed": 2}}"#;
    let mut input = base_input();
    input.session = read_input(text);
    input.total_cost_text = None;
    input.rate_limit_cells = vec![];
    assert_eq!(
        render_statusline(&input),
        "\x1b[36m~/proj\x1b[0m \x1b[38;5;12m\u{f02a2} \x1b[32mmain(\x1b[32m+10\x1b[0m \x1b[31m-2\x1b[0m)\x1b[0m \x1b[90m• \x1b[0m\x1b[38;5;208mOpus"
    );
}

#[test]
fn cost_cell_layout() {
    assert_eq!(render_cost_cell("cost", "\x1b[33m", "7.50"), "\x1b[90m cost\x1b[0m \x1b[33m$7.50\x1b[0m");
    assert_eq!(render_cost_cell("session", "\x1b[31m", "21.00"), "\x1b[90msession\x1b[0m \x1b[31m$21.00\x1b[0m");
}
