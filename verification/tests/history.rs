use std::collections::HashMap;

use repo_lines::blob::{text_line_counts, LineCount};
use repo_lines::diff_tree::{parse_diff_history, Delta};
use repo_lines::git_requests::attribute_query;
use repo_lines::history::{blobs_to_count, replay_language_history, replay_line_history};
use repo_lines::language::Language;

fn commits(ids: &[&str]) -> Vec<(String, String)> {
    ids.iter().map(|id| (id.to_string(), format!("date of {id}"))).collect()
}

/// The counts `git cat-file` would give for `oids`, from blob contents.
fn counts(oids: &[String], blobs: &HashMap<&str, &[u8]>, non_blank: bool) -> Vec<LineCount> {
    oids.iter().map(|oid| text_line_counts(blobs[oid.as_str()], non_blank)).collect()
}

fn delta(old_mode: &str, new_mode: &str, old_oid: &str, new_oid: &str, path: &str) -> Delta {
    Delta {
        old_mode: old_mode.to_owned(),
        new_mode: new_mode.to_owned(),
        old_oid: old_oid.to_owned(),
        new_oid: new_oid.to_owned(),
        path: path.as_bytes().to_vec(),
    }
}

#[test]
fn replays_non_blank_line_history() {
    let blobs = HashMap::from([("b1", &b"one\n\n  \ntwo\n"[..])]);
    let changes = parse_diff_history(b"c1\0:000000 100644 0 b1 A\0tracked.txt\0", &["c1"]).unwrap();
    let oids = blobs_to_count(&changes);
    assert_eq!(oids, vec!["b1".to_owned()]);
    let snapshots =
        replay_line_history(&commits(&["c1"]), &changes, &oids, &counts(&oids, &blobs, true)).unwrap();
    assert_eq!(snapshots[0].lines, 4);
    assert_eq!(snapshots[0].non_blank_lines, 2);
}

#[test]
fn replays_first_parent_changes_oldest_first() {
    let blobs = HashMap::from([
        ("t1", &b"one\n"[..]),
        ("bin", &b"binary\0data\n"[..]),
        ("t3", &b"one\ntwo\nthree\n"[..]),
        ("side", &b"side\nbranch\n"[..]),
    ]);
    let output = b"c1\0:000000 100644 0 t1 A\0tracked.txt\0:000000 100644 0 bin A\0ignored.bin\0\
c2\0:100644 100644 t1 t3 M\0tracked.txt\0\
c3\0:000000 100644 0 side A\0side.txt\0\
c4\0:100644 000000 t3 0 D\0tracked.txt\0:160000 160000 s1 s2 M\0module\0";
    let ids = ["c1", "c2", "c3", "c4"];
    let changes = parse_diff_history(output, &ids).unwrap();
    let oids = blobs_to_count(&changes);
    assert_eq!(oids, vec!["t1", "bin", "t3", "side"]);
    let snapshots =
        replay_line_history(&commits(&ids), &changes, &oids, &counts(&oids, &blobs, false)).unwrap();
    assert_eq!(snapshots.len(), 4);
    assert_eq!(snapshots[0].sequence, 1);
    assert_eq!(snapshots[0].commit, "c1");
    assert_eq!(snapshots[3].sequence, 4);
    assert_eq!(snapshots[3].datetime, "date of c4");
    assert_eq!(snapshots[0].lines, 1);
    assert_eq!(snapshots[1].lines, 3);
    assert_eq!(snapshots[2].lines, 5);
    assert_eq!(snapshots[3].lines, 2);
}

#[test]
fn asks_for_each_blob_once_at_its_first_use() {
    let history = vec![
        vec![delta("000000", "100644", "0", "a", "x"), delta("000000", "120000", "0", "b", "link")],
        vec![delta("100644", "100644", "a", "c", "x"), delta("000000", "100644", "0", "a", "y")],
        vec![delta("160000", "160000", "m1", "m2", "module"), delta("100644", "000000", "c", "0", "x")],
    ];
    assert_eq!(blobs_to_count(&history), vec!["a", "b", "c"]);
    assert_eq!(blobs_to_count(&[]), Vec::<String>::new());
}

#[test]
fn reports_the_first_underflow_and_overflow_of_the_history() {
    let history = vec![
        vec![delta("000000", "100644", "0", "a", "x")],
        vec![delta("100644", "100644", "b", "a", "x")],
    ];
    let oids = vec!["a".to_owned(), "b".to_owned()];
    let counts = vec![LineCount { all: 2, non_blank: 2 }, LineCount { all: 3, non_blank: 0 }];
    assert_eq!(
        replay_line_history(&commits(&["c1", "c2"]), &history, &oids, &counts).unwrap_err(),
        "line count underflow while removing b"
    );
    let counts = vec![LineCount { all: 2, non_blank: 2 }, LineCount { all: 1, non_blank: 3 }];
    assert_eq!(
        replay_line_history(&commits(&["c1", "c2"]), &history, &oids, &counts).unwrap_err(),
        "non-blank line count underflow while removing b"
    );
    let history = vec![vec![delta("000000", "100644", "0", "a", "x"), delta("000000", "100644", "0", "b", "y")]];
    let counts = vec![LineCount { all: u64::MAX, non_blank: 0 }, LineCount { all: 1, non_blank: 0 }];
    assert_eq!(
        replay_line_history(&commits(&["c1"]), &history, &oids, &counts).unwrap_err(),
        "line count overflow while adding b"
    );
}

#[test]
fn replays_language_fractions_across_file_changes() {
    let blobs = HashMap::from([
        ("r1", &b"one\ntwo\n"[..]),
        ("m1", &b"intro\n"[..]),
        ("r2", &b"one\ntwo\nthree\nfour\n"[..]),
    ]);
    let history = vec![
        vec![delta("000000", "100644", "0", "r1", "main.rs"), delta("000000", "100644", "0", "m1", "README.md")],
        vec![
            delta("100644", "100644", "r1", "r2", "main.rs"),
            delta("100644", "000000", "m1", "0", "README.md"),
            delta("000000", "100644", "0", "m1", "notes.py"),
        ],
    ];
    let oids = blobs_to_count(&history);
    let snapshots =
        replay_language_history(&commits(&["c1", "c2"]), &history, &oids, &counts(&oids, &blobs, false)).unwrap();

    assert_eq!(snapshots.len(), 2);
    assert_eq!(snapshots[0].lines.get(Language::Rust), Some(2));
    assert_eq!(snapshots[0].lines.get(Language::Markdown), Some(1));
    assert_eq!(snapshots[1].lines.get(Language::Rust), Some(4));
    assert_eq!(snapshots[1].lines.get(Language::Python), Some(1));
    assert_eq!(snapshots[1].lines.get(Language::Markdown), None);
    assert_eq!(snapshots[1].sequence, 2);
}

#[test]
fn reports_a_language_total_below_zero() {
    let history = vec![vec![delta("100644", "000000", "a", "0", "lib.go")]];
    let oids = vec!["a".to_owned()];
    let counts = vec![LineCount { all: 1, non_blank: 0 }];
    assert_eq!(
        replay_language_history(&commits(&["c1"]), &history, &oids, &counts).err(),
        Some("Go line count underflow while removing a".to_owned())
    );
}

#[test]
fn counts_by_commit_when_attributes_are_versioned() {
    let plain = vec![vec![delta("000000", "100644", "0", "a", "dir/x.txt")], vec![delta("000000", "100644", "0", "b", "dir/x.txt")]];
    assert_eq!(attribute_query(&plain), Some(b"dir/x.txt\0".to_vec()));
    let versioned = vec![vec![delta("000000", "100644", "0", "a", "dir/.gitattributes")]];
    assert_eq!(attribute_query(&versioned), None);
}

#[test]
fn binary_and_empty_files_leave_no_language_behind() {
    let blobs = HashMap::from([
        ("bin", &b"one\0two\n"[..]),
        ("empty", &b""[..]),
        ("data", &b"three\nfour\n"[..]),
    ]);
    let history = vec![vec![
        delta("000000", "100644", "0", "bin", "ignored.rs"),
        delta("000000", "100644", "0", "empty", "empty.py"),
        delta("000000", "100644", "0", "data", "included.data"),
    ]];
    let oids = blobs_to_count(&history);
    let snapshots =
        replay_language_history(&commits(&["c1"]), &history, &oids, &counts(&oids, &blobs, false)).unwrap();
    assert_eq!(snapshots[0].lines.get(Language::Rust), None);
    assert_eq!(snapshots[0].lines.get(Language::Python), None);
    assert_eq!(snapshots[0].lines.get(Language::Other), Some(2));
}
