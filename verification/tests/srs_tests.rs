use sprout::date::Date;
use sprout::srs::calculate;
use sprout::srs::load_balance;
use sprout::srs::Rating;
use sprout::srs::SrsInput;

fn dt(y: u32, m: u32, d: u32) -> Date {
    Date { year: y, month: m, day: d }
}

#[test]
fn test_good_no_delay_no_links() {
    let output = calculate(&SrsInput {
        interval: 1,
        ease: 250,
        next_review: dt(2026, 2, 26),
        today: dt(2026, 2, 26),
        rating: Rating::Good,
        link_factor_ppm: 0,
        link_weight_ppm: 100_000,
        max_interval: 90,
    });
    // (1 + 0/2) * 2.5 * 0.8 = 2.0 -> round = 2
    assert_eq!(output.new_interval, 2);
    assert_eq!(output.new_ease, 250);
    assert_eq!(output.next_review, dt(2026, 2, 28));
}

#[test]
fn test_hard_reduces_ease() {
    let output = calculate(&SrsInput {
        interval: 10,
        ease: 250,
        next_review: dt(2026, 2, 20),
        today: dt(2026, 2, 26),
        rating: Rating::Hard,
        link_factor_ppm: 0,
        link_weight_ppm: 100_000,
        max_interval: 90,
    });
    // delayed = 6, (10 + 6/4) * 0.5 = (10 + 1.5) * 0.5 = 5.75 -> 6
    assert_eq!(output.new_interval, 6);
    assert_eq!(output.new_ease, 235);
}

#[test]
fn test_easy_increases_ease() {
    let output = calculate(&SrsInput {
        interval: 5,
        ease: 250,
        next_review: dt(2026, 2, 26),
        today: dt(2026, 2, 26),
        rating: Rating::Easy,
        link_factor_ppm: 0,
        link_weight_ppm: 100_000,
        max_interval: 90,
    });
    // (5 + 0) * 2.5 = 12.5 -> 13 (rounded)
    assert_eq!(output.new_interval, 13);
    assert_eq!(output.new_ease, 265);
}

#[test]
fn test_max_interval_clamp() {
    let output = calculate(&SrsInput {
        interval: 80,
        ease: 250,
        next_review: dt(2026, 2, 26),
        today: dt(2026, 2, 26),
        rating: Rating::Easy,
        link_factor_ppm: 0,
        link_weight_ppm: 100_000,
        max_interval: 90,
    });
    assert!(output.new_interval <= 90);
    // the raw interval 200 exceeds the ceiling: the clamp lands exactly on it
    assert_eq!(output.new_interval, 90);
}

#[test]
fn test_hard_min_ease() {
    let output = calculate(&SrsInput {
        interval: 1,
        ease: 130,
        next_review: dt(2026, 2, 26),
        today: dt(2026, 2, 26),
        rating: Rating::Hard,
        link_factor_ppm: 0,
        link_weight_ppm: 100_000,
        max_interval: 90,
    });
    assert_eq!(output.new_ease, 130);
}

#[test]
fn test_link_factor_affects_good() {
    let without = calculate(&SrsInput {
        interval: 10,
        ease: 250,
        next_review: dt(2026, 2, 26),
        today: dt(2026, 2, 26),
        rating: Rating::Good,
        link_factor_ppm: 0,
        link_weight_ppm: 100_000,
        max_interval: 90,
    });
    let with_links = calculate(&SrsInput {
        interval: 10,
        ease: 250,
        next_review: dt(2026, 2, 26),
        today: dt(2026, 2, 26),
        rating: Rating::Good,
        link_factor_ppm: 1_000_000,
        link_weight_ppm: 100_000,
        max_interval: 90,
    });
    assert!(with_links.new_interval > without.new_interval);
}

#[test]
fn test_repeated_hard_keeps_ease_floor() {
    let mut ease: u32 = 250;
    for _ in 0..10 {
        let output = calculate(&SrsInput {
            interval: 1,
            ease,
            next_review: dt(2026, 2, 26),
            today: dt(2026, 2, 26),
            rating: Rating::Hard,
            link_factor_ppm: 0,
            link_weight_ppm: 100_000,
            max_interval: 90,
        });
        ease = output.new_ease;
        assert!(ease >= 130);
    }
    assert_eq!(ease, 130);
}

#[test]
fn test_load_balance_no_fuzz_short_interval() {
    let result = load_balance(3, dt(2026, 2, 26), &Vec::new());
    assert_eq!(result, dt(2026, 3, 1));
}

#[test]
fn test_load_balance_picks_least_loaded() {
    let existing = vec![
        dt(2026, 3, 7), // base-1
        dt(2026, 3, 7),
        dt(2026, 3, 8), // base
        dt(2026, 3, 9), // base+1
    ];
    // interval=10, fuzz=+/-1, base=2026-03-08
    let result = load_balance(10, dt(2026, 2, 26), &existing);
    // 3/7 has 2, 3/8 has 1, 3/9 has 1 -> tie between 3/8 and 3/9 -> earliest = 3/8
    assert_eq!(result, dt(2026, 3, 8));
}

#[test]
fn test_load_balance_tiebreak_earliest() {
    let existing: Vec<Date> = vec![];
    // interval=10, fuzz=+/-1, all have 0 reviews -> pick earliest (base-1)
    let result = load_balance(10, dt(2026, 2, 26), &existing);
    assert_eq!(result, dt(2026, 3, 7)); // base(3/8) - 1 = 3/7
}

#[test]
fn test_date_arithmetic_across_boundaries() {
    let d = sprout::date::add_days(&dt(2026, 2, 26), 3);
    assert_eq!(d, dt(2026, 3, 1));
    let e = sprout::date::add_days(&dt(2023, 12, 31), 1);
    assert_eq!(e, dt(2024, 1, 1));
    let leap = sprout::date::add_days(&dt(2024, 2, 28), 1);
    assert_eq!(leap, dt(2024, 2, 29));
    assert_eq!(sprout::date::days_between(&dt(2026, 2, 26), &dt(2026, 2, 20)), 6);
    assert_eq!(sprout::date::days_between(&dt(2026, 2, 20), &dt(2026, 2, 26)), -6);
}

#[test]
fn test_date_parse_and_format() {
    let t = sprout::date::format_date(&dt(2026, 2, 8));
    assert_eq!(String::from_utf8(t).unwrap(), "2026-02-08");
    let p = sprout::frontmatter::parse_date_token(b"2026-02-08");
    assert_eq!(p, Some(dt(2026, 2, 8)));
    assert_eq!(sprout::frontmatter::parse_date_token(b"2026-02-30"), None);
    assert_eq!(sprout::frontmatter::parse_date_token(b"2026-2-8"), None);
}
