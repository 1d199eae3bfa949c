use repo_lines::cli::{choose_bar_width, parse_options, CommitInterval, Options, BAR_WIDTH};

fn args(values: &[&str]) -> Vec<String> {
    values.iter().map(|value| value.to_string()).collect()
}

#[test]
fn parses_default_options() {
    assert_eq!(
        parse_options(Vec::<String>::new()).unwrap(),
        Options {
            date: false,
            non_blank: false,
            languages: false,
            full_width: false,
            commits: None,
            revision: "HEAD".to_owned(),
            path: ".".to_owned(),
        }
    );
}

#[test]
fn parses_revision_path_and_date_options() {
    let arguments = args(&["--path", "/tmp/project", "--date", "--non-blank", "--rev", "main"]);

    assert_eq!(
        parse_options(arguments).unwrap(),
        Options {
            date: true,
            non_blank: true,
            languages: false,
            full_width: false,
            commits: None,
            revision: "main".to_owned(),
            path: "/tmp/project".to_owned(),
        }
    );
}

#[test]
fn parses_commit_interval_and_rejects_incompatible_chart_options() {
    assert_eq!(
        parse_options(args(&["--commits", "monthly"])).unwrap(),
        Options {
            date: false,
            non_blank: false,
            languages: false,
            full_width: false,
            commits: Some(CommitInterval::Monthly),
            revision: "HEAD".to_owned(),
            path: ".".to_owned(),
        }
    );
    assert_eq!(
        parse_options(args(&["--commits", "hourly"])).unwrap_err(),
        "invalid value for --commits: hourly (expected daily, weekly, monthly, or yearly)"
    );
    assert_eq!(
        parse_options(args(&["--commits", "daily", "--date"])).unwrap_err(),
        "--commits cannot be combined with --date or --non-blank"
    );
}

#[test]
fn parses_language_chart_and_rejects_incompatible_modes() {
    assert_eq!(
        parse_options(args(&["--languages", "--date"])).unwrap(),
        Options {
            date: true,
            non_blank: false,
            languages: true,
            full_width: false,
            commits: None,
            revision: "HEAD".to_owned(),
            path: ".".to_owned(),
        }
    );
    assert_eq!(
        parse_options(args(&["--languages", "--non-blank"])).unwrap_err(),
        "--languages cannot be combined with --commits or --non-blank"
    );
    assert_eq!(
        parse_options(args(&["--languages", "--commits", "daily"])).unwrap_err(),
        "--languages cannot be combined with --commits or --non-blank"
    );
}

#[test]
fn parses_full_width_independently_of_chart_mode() {
    let options = parse_options(args(&["--full-width", "--languages", "--date"])).unwrap();

    assert!(options.full_width);
    assert!(options.languages);
    assert!(options.date);
}

#[test]
fn chooses_full_terminal_width_only_when_requested_and_available() {
    assert_eq!(choose_bar_width(false, Some(120), 30), BAR_WIDTH);
    assert_eq!(choose_bar_width(true, Some(120), 30), 90);
    assert_eq!(choose_bar_width(true, Some(20), 30), 0);
    assert_eq!(choose_bar_width(true, None, 30), BAR_WIDTH);
}

#[test]
fn rejects_missing_option_values_and_positional_revision() {
    assert_eq!(parse_options(args(&["--rev"])).unwrap_err(), "missing value for --rev");
    assert_eq!(parse_options(args(&["--path"])).unwrap_err(), "missing value for --path");
    assert_eq!(parse_options(args(&["main"])).unwrap_err(), "unexpected argument: main");
}

#[test]
fn rejects_a_missing_interval_and_non_blank_with_commits() {
    assert_eq!(parse_options(args(&["--commits"])).unwrap_err(), "missing value for --commits");
    assert_eq!(
        parse_options(args(&["--non-blank", "--commits", "weekly"])).unwrap_err(),
        "--commits cannot be combined with --date or --non-blank"
    );
}

#[test]
fn later_values_replace_earlier_ones() {
    let options = parse_options(args(&["--rev", "one", "--rev", "two", "--commits", "yearly"])).unwrap();
    assert_eq!(options.revision, "two");
    assert_eq!(options.commits, Some(CommitInterval::Yearly));
}

#[test]
fn names_each_commit_interval() {
    assert_eq!(CommitInterval::parse("daily"), Some(CommitInterval::Daily));
    assert_eq!(CommitInterval::parse("weekly"), Some(CommitInterval::Weekly));
    assert_eq!(CommitInterval::parse("monthly"), Some(CommitInterval::Monthly));
    assert_eq!(CommitInterval::parse("yearly"), Some(CommitInterval::Yearly));
    assert_eq!(CommitInterval::parse("Daily"), None);
}

#[test]
fn usage_lists_every_option() {
    let text = repo_lines::cli::usage();
    for option in ["--rev", "--path", "--date", "--non-blank", "--commits", "--languages", "--full-width", "--help", "--version"] {
        assert!(text.contains(option), "{option}");
    }
}
