use repo_lines::blob::check_blob_terminator;
use repo_lines::calendar::{
    days_in_month, interval_overflows, is_leap_year, iso_weeks_in_year, next_interval, parse_date,
    weekday,
};
use repo_lines::cli::CommitInterval;
use repo_lines::commit_log::{count_commit_dates, parse_commit_log};
use repo_lines::diff_tree::{parse_diff_history, Delta};
use repo_lines::git_requests::{
    check_attr_input, command_failure, diff_tree_input, git_failure, history_log_arguments,
    check_attr_arguments, diff_tree_arguments, grep_answered, interval_log_arguments, language_grep_arguments, line_grep_arguments,
    log_date_argument,
    mode_has_blob, parse_check_attr_output, trim_text, uses_versioned_attributes,
};
use repo_lines::grep_counts::{parse_language_counts, sum_grep_counts};
use repo_lines::language::Language;

fn delta(old_mode: &str, new_mode: &str, path: &str) -> Delta {
    Delta {
        old_mode: old_mode.to_owned(),
        new_mode: new_mode.to_owned(),
        old_oid: "0".repeat(40),
        new_oid: "1".repeat(40),
        path: path.as_bytes().to_vec(),
    }
}

#[test]
fn counts_commits_per_date_in_sorted_order() {
    let counts = count_commit_dates(b"2026-01-03\n2026-01-01\n2026-01-01\n").unwrap();
    assert_eq!(counts, vec![("2026-01-01".to_owned(), 2), ("2026-01-03".to_owned(), 1)]);
    assert_eq!(counts.iter().map(|(_, count)| count).sum::<u64>(), 3);
    assert_eq!(count_commit_dates(b"").unwrap(), vec![]);
    assert_eq!(
        count_commit_dates(b"2026\xff\n").unwrap_err(),
        "git log returned non-UTF-8 output: invalid utf-8 sequence of 1 bytes from index 4"
    );
}

#[test]
fn reads_commits_and_dates_from_the_log() {
    assert_eq!(
        parse_commit_log(b"abc\t2026-01-01 10:00:00\ndef\t2026-01-02 11:00:00\n").unwrap(),
        vec![
            ("abc".to_owned(), "2026-01-01 10:00:00".to_owned()),
            ("def".to_owned(), "2026-01-02 11:00:00".to_owned()),
        ]
    );
    assert_eq!(parse_commit_log(b"abc no tab\n").unwrap_err(), "malformed git log output: abc no tab");
    assert_eq!(
        parse_commit_log(b"\x80").unwrap_err(),
        "git log returned non-UTF-8 output: invalid utf-8 sequence of 1 bytes from index 0"
    );
}

#[test]
fn sums_the_counts_of_git_grep() {
    assert_eq!(sum_grep_counts(b"HEAD:a.txt:3\nHEAD:dir/b:c.txt:4\n"), Ok(7));
    assert_eq!(sum_grep_counts(b""), Ok(0));
    assert_eq!(sum_grep_counts(b"no count\n"), Err("malformed git grep output: no count".to_owned()));
    assert_eq!(
        sum_grep_counts(b"HEAD:a:x\n"),
        Err("invalid line count in git grep output: x".to_owned())
    );
    assert_eq!(
        sum_grep_counts(b"HEAD:a:18446744073709551615\nHEAD:b:1\n"),
        Err("total line count overflowed u64".to_owned())
    );
    assert_eq!(
        sum_grep_counts(b"HEAD:a:\xc3\n"),
        Err("git grep returned non-UTF-8 output: invalid utf-8 sequence of 1 bytes from index 7".to_owned())
    );
}

#[test]
fn sums_git_grep_counts_by_language() {
    let totals = parse_language_counts(b"HEAD:src/a.rs\x003\nHEAD:b.RS\x002\nHEAD:c.md\x001\n", "HEAD").unwrap();
    assert_eq!(totals.get(Language::Rust), Some(5));
    assert_eq!(totals.get(Language::Markdown), Some(1));
    assert_eq!(totals.get(Language::Python), None);
    let zero = parse_language_counts(b"HEAD:empty.py\x000\nHEAD:a.rs\x002\n", "HEAD").unwrap();
    assert_eq!(zero.get(Language::Python), None);
    assert_eq!(zero.get(Language::Rust), Some(2));
    assert_eq!(
        parse_language_counts(b"HEAD:a.rs", "HEAD").err(),
        Some("malformed git grep language path".to_owned())
    );
    assert_eq!(
        parse_language_counts(b"main:a.rs\x001\n", "HEAD").err(),
        Some("unexpected git grep language path".to_owned())
    );
    assert_eq!(
        parse_language_counts(b"HEAD:a.rs\x001", "HEAD").err(),
        Some("malformed git grep language count".to_owned())
    );
    assert_eq!(
        parse_language_counts(b"HEAD:a.rs\x00one\n", "HEAD").err(),
        Some("git grep returned an invalid language count".to_owned())
    );
    assert_eq!(
        parse_language_counts(b"HEAD:a.rs\x00\xff\n", "HEAD").err(),
        Some("git grep returned a non-UTF-8 count: invalid utf-8 sequence of 1 bytes from index 0".to_owned())
    );
    assert_eq!(
        parse_language_counts(b"HEAD:a.rs\x0018446744073709551615\nHEAD:b.rs\x001\n", "HEAD").err(),
        Some("language line count overflowed u64".to_owned())
    );
}

#[test]
fn reads_the_changes_of_each_commit() {
    let output = b"c1\0:000000 100644 0000 1111 A\0a.txt\0c2\0:100644 100644 1111 2222 M\0a.txt\0:120000 000000 3333 0000 D\0link\0";
    let history = parse_diff_history(output, &["c1", "c2"]).unwrap();
    assert_eq!(history.len(), 2);
    assert_eq!(history[0].len(), 1);
    assert_eq!(history[0][0].old_mode, "000000");
    assert_eq!(history[0][0].new_mode, "100644");
    assert_eq!(history[0][0].new_oid, "1111");
    assert_eq!(history[0][0].path, b"a.txt".to_vec());
    assert_eq!(history[1].len(), 2);
    assert_eq!(history[1][1].old_mode, "120000");
    assert_eq!(history[1][1].path, b"link".to_vec());
    assert_eq!(parse_diff_history(b"", &[]).unwrap().len(), 0);
    let single = parse_diff_history(b"c1\0", &["c1"]).unwrap();
    assert_eq!(single.len(), 1);
    assert!(single[0].is_empty());
}

#[test]
fn reports_each_malformed_diff_tree_output() {
    assert_eq!(parse_diff_history(b"", &["c1"]).unwrap_err(), "missing diff-tree header for c1");
    assert_eq!(
        parse_diff_history(b"c2\0", &["c1"]).unwrap_err(),
        "unexpected diff-tree header: c2"
    );
    assert_eq!(
        parse_diff_history(b"c\xff\0", &["c1"]).unwrap_err(),
        "unexpected diff-tree header: c\u{fffd}"
    );
    assert_eq!(
        parse_diff_history(b"c1\0:\xff\0a\0", &["c1"]).unwrap_err(),
        "non-UTF-8 diff-tree metadata: invalid utf-8 sequence of 1 bytes from index 0"
    );
    assert_eq!(
        parse_diff_history(b"c1\0:1 2 3 4\0a\0", &["c1"]).unwrap_err(),
        "malformed diff-tree metadata: 1 2 3 4"
    );
    assert_eq!(
        parse_diff_history(b"c1\0:1 2 3 4 MM\0a\0", &["c1"]).unwrap_err(),
        "unexpected diff-tree status: 1 2 3 4 MM"
    );
    assert_eq!(
        parse_diff_history(b"c1\0:1 2 3 4 M\0", &["c1"]).unwrap_err(),
        "missing path after diff-tree metadata"
    );
    assert_eq!(
        parse_diff_history(b"c1\0extra\0", &["c1"]).unwrap_err(),
        "unexpected trailing diff-tree output"
    );
}

#[test]
fn asks_diff_tree_for_each_commit_against_the_one_before() {
    assert_eq!(diff_tree_input(&[]), b"".to_vec());
    assert_eq!(diff_tree_input(&["a"]), b"a\n".to_vec());
    assert_eq!(diff_tree_input(&["a", "b", "c"]), b"a\nb a\nc b\n".to_vec());
}

#[test]
fn knows_which_modes_hold_blobs() {
    assert!(mode_has_blob("100644"));
    assert!(mode_has_blob("100755"));
    assert!(mode_has_blob("120000"));
    assert!(!mode_has_blob("160000"));
    assert!(!mode_has_blob("040000"));
    assert!(!mode_has_blob("000000"));
    assert!(!mode_has_blob("10"));
}

#[test]
fn notices_versioned_attribute_files_in_any_directory() {
    assert!(!uses_versioned_attributes(&[vec![delta("000000", "100644", "a.txt")]]));
    assert!(uses_versioned_attributes(&[vec![], vec![delta("000000", "100644", "sub/.gitattributes")]]));
    assert!(uses_versioned_attributes(&[vec![delta("100644", "000000", ".gitattributes")]]));
    assert!(!uses_versioned_attributes(&[vec![delta("000000", "100644", ".gitattributes.bak")]]));
    assert!(!uses_versioned_attributes(&[]));
}

#[test]
fn asks_check_attr_about_each_path_once_in_first_change_order() {
    let history = vec![
        vec![delta("000000", "100644", "b"), delta("000000", "100644", "a")],
        vec![delta("100644", "100644", "b"), delta("000000", "100644", "c")],
        vec![delta("100644", "000000", "a")],
    ];
    assert_eq!(check_attr_input(&history), b"b\0a\0c\0".to_vec());
    assert_eq!(check_attr_input(&[]), Vec::<u8>::new());
}

#[test]
fn reads_whether_attributes_set_diff() {
    assert_eq!(parse_check_attr_output(b"a\0diff\0unspecified\0b\0diff\0unspecified\0"), Ok(false));
    assert_eq!(parse_check_attr_output(b"a\0diff\0unset\0"), Ok(true));
    assert_eq!(parse_check_attr_output(b"a\0diff\0set\0"), Ok(true));
    assert_eq!(parse_check_attr_output(b""), Ok(false));
    assert_eq!(
        parse_check_attr_output(b"a\0diff\0"),
        Err("malformed git check-attr output".to_owned())
    );
}

#[test]
fn reports_failed_commands() {
    assert_eq!(
        git_failure(&["log", "--reverse"], b"  fatal: bad revision\n\n", "exit status: 128"),
        "git log --reverse failed: fatal: bad revision"
    );
    assert_eq!(
        git_failure(&["grep"], b" \n\t", "exit status: 2"),
        "git grep failed with exit status: 2"
    );
    assert_eq!(
        git_failure(&["x"], b"bad \xff byte", "exit status: 1"),
        "git x failed: bad \u{fffd} byte"
    );
    assert_eq!(
        command_failure("git cat-file", "\u{3000}gone\u{2028}", "signal: 9"),
        "git cat-file failed: gone"
    );
    assert_eq!(trim_text("\u{85}\u{a0} a b \r\n"), "a b");
    assert_eq!(trim_text("\u{200b}x"), "\u{200b}x");
}

#[test]
fn formats_the_log_date_of_each_interval() {
    assert_eq!(log_date_argument(CommitInterval::Daily), "--date=format:%Y-%m-%d");
    assert_eq!(log_date_argument(CommitInterval::Weekly), "--date=format:%G-W%V");
    assert_eq!(log_date_argument(CommitInterval::Monthly), "--date=format:%Y-%m");
    assert_eq!(log_date_argument(CommitInterval::Yearly), "--date=format:%Y");
}

#[test]
fn steps_to_the_next_interval() {
    assert_eq!(next_interval("2026-02-28", CommitInterval::Daily), Some("2026-03-01".to_owned()));
    assert_eq!(next_interval("2024-02-28", CommitInterval::Daily), Some("2024-02-29".to_owned()));
    assert_eq!(next_interval("2026-12-31", CommitInterval::Daily), Some("2027-01-01".to_owned()));
    assert_eq!(next_interval("2026-W52", CommitInterval::Weekly), Some("2026-W53".to_owned()));
    assert_eq!(next_interval("2025-W52", CommitInterval::Weekly), Some("2026-W01".to_owned()));
    assert_eq!(next_interval("2020-W52", CommitInterval::Weekly), Some("2020-W53".to_owned()));
    assert_eq!(next_interval("2026-12", CommitInterval::Monthly), Some("2027-01".to_owned()));
    assert_eq!(next_interval("0999", CommitInterval::Yearly), Some("1000".to_owned()));
    assert_eq!(next_interval("-1", CommitInterval::Yearly), Some("0000".to_owned()));
    assert_eq!(next_interval("2026-13-01", CommitInterval::Daily), None);
    assert_eq!(next_interval("2026", CommitInterval::Monthly), None);
    assert!(interval_overflows("2147483647", CommitInterval::Yearly));
    assert!(!interval_overflows("2147483646", CommitInterval::Yearly));
    assert!(interval_overflows("2147483647-12-31", CommitInterval::Daily));
}

#[test]
fn knows_the_calendar() {
    assert!(is_leap_year(2000));
    assert!(!is_leap_year(1900));
    assert!(is_leap_year(2024));
    assert_eq!(days_in_month(2023, 2), 28);
    assert_eq!(days_in_month(2024, 2), 29);
    assert_eq!(days_in_month(2024, 4), 30);
    assert_eq!(days_in_month(2024, 13), 0);
    assert_eq!(weekday(2026, 1, 1), 3);
    assert_eq!(weekday(2000, 1, 1), 5);
    assert_eq!(iso_weeks_in_year(2000), 52);
    assert_eq!(iso_weeks_in_year(2020), 53);
    assert_eq!(iso_weeks_in_year(2026), 53);
    assert_eq!(iso_weeks_in_year(2025), 52);
    let chars: Vec<char> = "2024-02-29".chars().collect();
    assert_eq!(parse_date(&chars), Some((2024, 2, 29)));
    let chars: Vec<char> = "2023-02-29".chars().collect();
    assert_eq!(parse_date(&chars), None);
}

#[test]
fn asks_git_log_for_the_first_parent_path_only() {
    assert_eq!(
        history_log_arguments("main"),
        vec!["log", "--format=%H%x09%cd", "--date=format:%Y-%m-%d %H:%M:%S", "--reverse", "--first-parent", "main"]
    );
    assert_eq!(
        interval_log_arguments("HEAD", CommitInterval::Weekly),
        vec!["log", "--format=%cd", "--date=format:%G-W%V", "--reverse", "--first-parent", "HEAD"]
    );
}

#[test]
fn checks_the_newline_after_each_blob() {
    assert_eq!(check_blob_terminator(b'\n', "abc"), Ok(()));
    assert_eq!(check_blob_terminator(b'x', "abc"), Err("invalid blob terminator for abc".to_owned()));
}

#[test]
fn asks_git_grep_for_text_lines() {
    assert_eq!(line_grep_arguments("c1", false), vec!["grep", "-I", "-c", "^", "c1", "--"]);
    assert_eq!(line_grep_arguments("c1", true), vec!["grep", "-I", "-c", "[^[:space:]]", "c1", "--"]);
    assert_eq!(language_grep_arguments("c1"), vec!["grep", "-I", "-c", "-z", "^", "c1", "--"]);
    assert!(grep_answered(true, Some(0)));
    assert!(grep_answered(false, Some(1)));
    assert!(!grep_answered(false, Some(2)));
    assert!(!grep_answered(false, None));
}

#[test]
fn asks_diff_tree_and_check_attr_in_machine_form() {
    assert_eq!(
        diff_tree_arguments(),
        vec!["diff-tree", "--stdin", "--root", "-r", "--raw", "-z", "--no-renames", "--no-abbrev"]
    );
    assert_eq!(check_attr_arguments(), vec!["check-attr", "-z", "--stdin", "diff"]);
}
