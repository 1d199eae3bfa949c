use repo_lines::calendar::next_interval;
use repo_lines::commit_chart::checked_commit_chart_reserved_width;
use repo_lines::language_chart::checked_language_chart_reserved_width;
use repo_lines::line_chart::checked_line_chart_reserved_width;
use repo_lines::bars::{render_bar, render_layered_bar, scaled_eighths};
use repo_lines::cli::CommitInterval;
use repo_lines::commit_chart::{
    commit_chart_reserved_width, fill_empty_intervals, intervals_reach_last, render_commit_chart,
};
use repo_lines::language::{Language, LanguageCounts};
use repo_lines::language_chart::{
    language_chart_reserved_width, legend_languages, render_language_chart,
};
use repo_lines::line_chart::{line_chart_reserved_width, render_chart};
use repo_lines::snapshot::{LanguageSnapshot, Snapshot};

fn counts(entries: &[(Language, u64)]) -> LanguageCounts {
    let mut lines = LanguageCounts::new();
    for (language, total) in entries {
        lines.insert(*language, *total);
    }
    lines
}

fn dated(entries: &[(&str, u64)]) -> Vec<(String, u64)> {
    entries.iter().map(|(label, count)| (label.to_string(), *count)).collect()
}

#[test]
fn reserves_non_bar_columns_for_each_chart_mode() {
    let lines = vec![Snapshot::new(1, "0123456789abcdef", "2026-07-15 10:00:00", 10, 5)];
    let languages = vec![LanguageSnapshot::new(
        1,
        "0123456789abcdef",
        "2026-07-15 10:00:00",
        counts(&[(Language::Rust, 10)]),
    )];

    assert_eq!(line_chart_reserved_width(&lines, false), 15);
    assert_eq!(commit_chart_reserved_width(&[("2026-07-15".to_owned(), 10)]), 15);
    assert_eq!(language_chart_reserved_width(&languages, false), 12);
}

#[test]
fn renders_daily_commit_counts_with_empty_days() {
    let commits = vec![("2026-07-14".to_owned(), 2), ("2026-07-16".to_owned(), 1)];

    assert_eq!(
        render_commit_chart(&commits, CommitInterval::Daily, 10),
        "    0 commits\n\
         2026-07-14  ██████████ 2\n\
         2026-07-15  0\n\
         2026-07-16  █████ 1\n"
    );
}

#[test]
fn renders_weekly_monthly_and_yearly_commit_counts() {
    assert_eq!(
        render_commit_chart(
            &[("2026-W01".to_owned(), 1), ("2026-W03".to_owned(), 2)],
            CommitInterval::Weekly,
            10,
        ),
        "    0 commits\n\
         2026-W01  █████ 1\n\
         2026-W02  0\n\
         2026-W03  ██████████ 2\n"
    );
    assert_eq!(
        render_commit_chart(
            &[("2025-11".to_owned(), 1), ("2026-01".to_owned(), 2)],
            CommitInterval::Monthly,
            10,
        ),
        "    0 commits\n\
         2025-11  █████ 1\n\
         2025-12  0\n\
         2026-01  ██████████ 2\n"
    );
    assert_eq!(
        render_commit_chart(
            &[("2024".to_owned(), 1), ("2026".to_owned(), 2)],
            CommitInterval::Yearly,
            10,
        ),
        "    0 commits\n\
         2024  █████ 1\n\
         2025  0\n\
         2026  ██████████ 2\n"
    );
}

#[test]
fn layers_grey_non_blank_lines_over_the_white_total() {
    assert_eq!(render_layered_bar(5, 10, 10, 10, true), "\x1b[90m█████\x1b[97m█████\x1b[0m");
    assert_eq!(render_layered_bar(5, 10, 10, 10, false), "██████████");
}

#[test]
fn keeps_fractional_bars_continuous_at_the_color_boundary() {
    assert_eq!(render_layered_bar(73, 89, 100, 10, true), "\x1b[90m███████\x1b[97m█▉\x1b[0m");
}

#[test]
fn renders_scaled_bars_in_history_order() {
    let history = vec![
        Snapshot::new(1, "0123456789abcdef", "2026-07-15 10:00:00", 5, 4),
        Snapshot::new(2, "fedcba9876543210", "2026-07-15 11:00:00", 10, 8),
        Snapshot::new(3, "aabbccddeeff0011", "2026-07-15 12:00:00", 0, 0),
    ];

    assert_eq!(
        render_chart(&history, 10, false, false, false),
        "        0 LoC\n\
         1:01234567  █████ 5\n\
         2:fedcba98  ██████████ 10\n\
         3:aabbccdd  0\n"
    );

    assert_eq!(
        render_chart(&history, 10, true, false, false),
        "        0 LoC\n\
         2026-07-15 10:00:00:1:01234567  █████ 5\n\
         2026-07-15 11:00:00:2:fedcba98  ██████████ 10\n\
         2026-07-15 12:00:00:3:aabbccdd  0\n"
    );
}

#[test]
fn renders_language_fractions_with_stable_plain_text_symbols() {
    let history = vec![
        LanguageSnapshot::new(
            1,
            "0123456789abcdef",
            "2026-07-15 10:00:00",
            counts(&[(Language::Rust, 3), (Language::Markdown, 1)]),
        ),
        LanguageSnapshot::new(
            2,
            "fedcba9876543210",
            "2026-07-15 11:00:00",
            counts(&[(Language::Rust, 2), (Language::Python, 2)]),
        ),
    ];

    let chart = render_language_chart(&history, 10, false, false);

    assert!(chart.contains("1:01234567  AAACCCCCCC\n"));
    assert!(chart.contains("2:fedcba98  BBBBBCCCCC\n"));
    assert!(chart.ends_with("Legend: A Markdown, B Python, C Rust\n"));
}

#[test]
fn language_fraction_rounding_always_fills_the_bar() {
    let history = vec![LanguageSnapshot::new(
        1,
        "0123456789abcdef",
        "2026-07-15 10:00:00",
        counts(&[(Language::Rust, 1), (Language::Python, 1), (Language::Markdown, 1)]),
    )];

    let chart = render_language_chart(&history, 10, false, false);
    let bar = chart
        .lines()
        .find(|line| line.contains("1:01234567"))
        .and_then(|line| line.rsplit_once("  ").map(|(_, bar)| bar))
        .unwrap();

    assert_eq!(bar.chars().count(), 10);
}

#[test]
fn leaves_the_default_chart_uncolored() {
    let history = vec![Snapshot::new(1, "0123456789abcdef", "2026-07-15 10:00:00", 10, 5)];

    assert_eq!(
        render_chart(&history, 10, false, false, true),
        "        0 LoC\n1:01234567  ██████████ 10\n"
    );
}

#[test]
fn renders_an_empty_commit_chart_with_its_header_only() {
    assert_eq!(render_commit_chart(&[], CommitInterval::Daily, 10), "    0 commits\n");
    assert!(intervals_reach_last(&[], CommitInterval::Daily));
}

#[test]
fn fills_the_days_across_a_month_and_a_year_end() {
    let filled = fill_empty_intervals(&dated(&[("2025-12-30", 1), ("2026-01-02", 3)]), CommitInterval::Daily);
    assert_eq!(
        filled,
        dated(&[("2025-12-30", 1), ("2025-12-31", 0), ("2026-01-01", 0), ("2026-01-02", 3)])
    );
    let leap = fill_empty_intervals(&dated(&[("2024-02-28", 1), ("2024-03-01", 1)]), CommitInterval::Daily);
    assert_eq!(leap, dated(&[("2024-02-28", 1), ("2024-02-29", 0), ("2024-03-01", 1)]));
}

#[test]
fn steps_over_a_fifty_three_week_year() {
    let filled = fill_empty_intervals(&dated(&[("2020-W52", 1), ("2021-W01", 1)]), CommitInterval::Weekly);
    assert_eq!(filled, dated(&[("2020-W52", 1), ("2020-W53", 0), ("2021-W01", 1)]));
}

#[test]
fn only_labels_that_step_to_the_last_can_be_drawn() {
    assert!(intervals_reach_last(&dated(&[("2026-07-14", 2), ("2026-07-16", 1)]), CommitInterval::Daily));
    assert!(!intervals_reach_last(&dated(&[("yesterday", 1), ("today", 1)]), CommitInterval::Daily));
}

#[test]
fn scales_bars_in_eighths_of_a_cell() {
    assert_eq!(scaled_eighths(1, 8, 1), 1);
    assert_eq!(scaled_eighths(3, 4, 10), 60);
    assert_eq!(scaled_eighths(5, 0, 10), 0);
    assert_eq!(render_bar(1, 8, 1), "▏");
    assert_eq!(render_bar(7, 8, 1), "▉");
    assert_eq!(render_bar(3, 4, 10), "███████▌");
    assert_eq!(render_bar(0, 4, 10), "");
}

#[test]
fn the_maximum_fills_the_bar_and_larger_values_never_shrink_it() {
    for maximum in [1u64, 3, 7, 89, 1000] {
        assert_eq!(render_bar(maximum, maximum, 13).chars().count(), 13);
        let mut previous = 0;
        for value in 0..=maximum {
            let cells = render_bar(value, maximum, 13).chars().count();
            assert!(cells >= previous && cells <= 13);
            previous = cells;
        }
    }
}

#[test]
fn colors_language_rows_for_terminals() {
    let history = vec![LanguageSnapshot::new(
        1,
        "0123456789abcdef",
        "2026-07-15 10:00:00",
        counts(&[(Language::Rust, 1), (Language::Markdown, 1)]),
    )];
    let chart = render_language_chart(&history, 4, false, true);
    assert!(chart.contains("\x1b["));
    assert!(!chart.contains("AA"));
}

#[test]
fn keeps_one_legend_order_for_the_whole_chart() {
    let history = vec![
        LanguageSnapshot::new(1, "a", "d", counts(&[(Language::Other, 1), (Language::Rust, 1)])),
        LanguageSnapshot::new(2, "b", "d", counts(&[(Language::C, 1)])),
    ];
    assert_eq!(legend_languages(&history), vec![Language::C, Language::Rust, Language::Other]);
}

#[test]
fn rows_depend_on_fractions_only() {
    let small = vec![LanguageSnapshot::new(1, "0123456789abcdef", "d", counts(&[(Language::Rust, 3), (Language::Go, 1)]))];
    let large = vec![LanguageSnapshot::new(1, "0123456789abcdef", "d", counts(&[(Language::Rust, 3000), (Language::Go, 1000)]))];
    assert_eq!(
        render_language_chart(&small, 17, false, false),
        render_language_chart(&large, 17, false, false)
    );
}

#[test]
fn every_language_row_fills_the_bar() {
    for width in [1usize, 7, 10, 33] {
        let history = vec![
            LanguageSnapshot::new(1, "0123456789abcdef", "d", counts(&[(Language::Rust, 1), (Language::Python, 1), (Language::Go, 1)])),
            LanguageSnapshot::new(2, "fedcba9876543210", "d", counts(&[(Language::Rust, 5), (Language::C, 2), (Language::Java, 9), (Language::Other, 13)])),
        ];
        let chart = render_language_chart(&history, width, false, false);
        for line in chart.lines().filter(|line| line.starts_with(|c: char| c.is_ascii_digit())) {
            let bar = line.rsplit_once("  ").map(|(_, bar)| bar).unwrap();
            assert_eq!(bar.chars().count(), width, "{line}");
        }
    }
}

#[test]
fn reports_reserved_columns_when_they_fit() {
    let lines = vec![Snapshot::new(1, "0123456789abcdef", "2026-07-15 10:00:00", 10, 5)];
    assert_eq!(checked_line_chart_reserved_width(&lines, false), Some(15));
    assert_eq!(checked_line_chart_reserved_width(&lines, true), Some(35));
    assert_eq!(checked_line_chart_reserved_width(&[], false), Some(19));
    assert_eq!(checked_commit_chart_reserved_width(&[("2026-07-15".to_owned(), 10)]), Some(15));
    assert_eq!(checked_commit_chart_reserved_width(&[]), Some(4));
    assert_eq!(checked_language_chart_reserved_width(&[], false), Some(17));
}

fn without_escapes(text: &str) -> String {
    let mut shown = String::new();
    let mut escaped = false;
    for c in text.chars() {
        if escaped {
            escaped = c != 'm';
        } else if c == '\x1b' {
            escaped = true;
        } else {
            shown.push(c);
        }
    }
    shown
}

#[test]
fn a_layered_bar_shows_the_plain_bar_of_the_total() {
    for (non_blank, all) in [(0u64, 0u64), (0, 7), (5, 10), (73, 89), (89, 89), (1, 100)] {
        for colors in [false, true] {
            assert_eq!(
                without_escapes(&render_layered_bar(non_blank, all, 100, 10, colors)),
                render_bar(all, 100, 10)
            );
        }
    }
}

#[test]
fn default_rows_fit_the_reserved_columns_and_the_bar() {
    let history = vec![
        Snapshot::new(1, "0123456789abcdef", "2026-07-15 10:00:00", 5, 4),
        Snapshot::new(2, "fedcba98", "2026-07-15 11:00:00", 123456, 8),
        Snapshot::new(3, "abc", "2026-07-15 12:00:00", 0, 0),
    ];
    for date in [false, true] {
        let reserved = checked_line_chart_reserved_width(&history, date).unwrap();
        let chart = render_chart(&history, 12, date, false, false);
        for row in chart.lines().skip(1) {
            assert!(row.chars().count() <= reserved + 12, "{row}");
        }
    }
}

#[test]
fn filled_intervals_step_one_interval_at_a_time() {
    let counts = dated(&[("2025-11", 4), ("2026-02", 1)]);
    let filled = fill_empty_intervals(&counts, CommitInterval::Monthly);
    assert_eq!(filled.first(), counts.first());
    assert_eq!(filled.last().map(|entry| &entry.0), counts.last().map(|entry| &entry.0));
    for pair in filled.windows(2) {
        assert_eq!(next_interval(&pair[0].0, CommitInterval::Monthly), Some(pair[1].0.clone()));
    }
    assert!(fill_empty_intervals(&[], CommitInterval::Monthly).is_empty());
}
