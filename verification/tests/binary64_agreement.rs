use statusline::cells::format_credits_cell;
use statusline::compact::{format_count_compact, format_credits_compact, format_tokens};

fn samples() -> Vec<u64> {
    let mut v: Vec<u64> = Vec::new();
    for n in 0..5000u64 {
        v.push(n);
    }
    let mut x: u64 = 1;
    for _ in 0..4000 {
        x = x.wrapping_mul(6364136223846793005).wrapping_add(1442695040888963407);
        v.push(x);
        v.push(x >> 11);
        v.push(x >> 20);
        v.push(x >> 30);
        v.push(x >> 40);
    }
    for k in 0..64u32 {
        let p = 1u64 << k;
        v.push(p);
        v.push(p.wrapping_sub(1));
        v.push(p.wrapping_add(1));
    }
    for base in [1_000u64, 1_000_000, 1_000_000_000] {
        for m in 1..2000u64 {
            v.push(m * base / 100 * 5);
            v.push(m * base / 20 + base / 40);
        }
    }
    v.push(u64::MAX);
    v.push(u64::MAX - 1);
    v
}

fn count_compact_reference(n: u64) -> String {
    let t = n as f64;
    if t >= 1_000_000_000.0 {
        format!("{:.1}B", t / 1_000_000_000.0)
    } else if t >= 1_000_000.0 {
        format!("{:.1}M", t / 1_000_000.0)
    } else if t >= 1_000.0 {
        format!("{:.1}k", t / 1_000.0)
    } else {
        format!("{}", n)
    }
}

fn tokens_reference(tokens: u64) -> String {
    let k = tokens as f64 / 1000.0;
    if k >= 100.0 {
        format!("{}k", k.round() as u64)
    } else if k >= 10.0 {
        format!("{:.0}k", k)
    } else {
        format!("{:.1}k", k)
    }
}

fn credits_compact_reference(n: u64) -> String {
    if n >= 1_000 {
        format!("{:.1}k", n as f64 / 1_000.0)
    } else {
        format!("{}", n)
    }
}

fn color_reference(remaining: u64, limit: u64) -> &'static str {
    let used = limit.saturating_sub(remaining);
    let pct = if limit > 0 {
        (used as f64 / limit as f64) * 100.0
    } else {
        0.0
    };
    if pct >= 90.0 {
        "\x1b[31m"
    } else if pct >= 70.0 {
        "\x1b[38;5;208m"
    } else if pct >= 50.0 {
        "\x1b[33m"
    } else {
        "\x1b[32m"
    }
}

#[test]
fn compact_formats_agree_with_binary64_formatting() {
    for n in samples() {
        assert_eq!(format_credits_compact(n), credits_compact_reference(n), "credits {}", n);
        assert_eq!(format_count_compact(n), count_compact_reference(n), "count {}", n);
        assert_eq!(format_tokens(n), tokens_reference(n), "tokens {}", n);
    }
}

#[test]
fn credits_colors_agree_with_binary64_comparisons() {
    let s = samples();
    for (i, limit) in s.iter().enumerate() {
        let limit = *limit;
        let remainings = [
            0,
            limit / 10,
            limit / 2,
            limit / 10 * 3,
            limit - limit / 10,
            s[(i * 7 + 3) % s.len()],
            limit.saturating_sub(1),
        ];
        for remaining in remainings {
            let cell = format_credits_cell("c", remaining, limit);
            let color = color_reference(remaining, limit);
            assert!(cell.contains(&format!("\x1b[0m {}", color)), "{} {} {}", remaining, limit, cell);
        }
    }
    for limit in 1..400u64 {
        for remaining in 0..=limit {
            let cell = format_credits_cell("c", remaining, limit);
            let color = color_reference(remaining, limit);
            assert!(cell.contains(&format!("\x1b[0m {}", color)), "{} {}", remaining, limit);
        }
    }
}
