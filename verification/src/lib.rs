//! Verified core of `repo-lines`: the charts it draws, the command line it
//! accepts, and the parsing of what git reports.
pub mod text;
pub mod language;
pub mod snapshot;
pub mod bars;
pub mod line_chart;
pub mod numbers;
pub mod cli;
pub mod calendar;
pub mod commit_chart;
pub mod language_chart;
pub mod lines;
pub mod commit_log;
pub mod grep_counts;
pub mod blob;
pub mod diff_tree;
pub mod git_requests;
pub mod row_fill;
pub mod history;
