use repo_lines::blob::{
    add_language_lines, parse_cat_file_header, remove_language_lines, text_line_counts, LineCount,
};
use repo_lines::language::{classify_path, Language, LanguageCounts};

#[test]
fn classifies_common_extensions_case_insensitively() {
    assert_eq!(classify_path(b"src/main.rs").name(), "Rust");
    assert_eq!(classify_path(b"web/App.TSX").name(), "TypeScript");
    assert_eq!(classify_path(b"include/value.hpp").name(), "C++");
    assert_eq!(classify_path(b"script.py").name(), "Python");
    assert_eq!(classify_path(b"README.md").name(), "Markdown");
}

#[test]
fn classifies_special_filenames_and_unknown_text_as_other() {
    assert_eq!(classify_path(b"containers/Dockerfile").name(), "Dockerfile");
    assert_eq!(classify_path(b"Makefile").name(), "Makefile");
    assert_eq!(classify_path(b"LICENSE").name(), "Other");
    assert_eq!(classify_path(b"notes.unknown").name(), "Other");
}

#[test]
fn counts_all_text_lines_and_ignores_binary_blobs() {
    assert_eq!(text_line_counts(b"", false).all, 0);
    assert_eq!(text_line_counts(b"one\ntwo\n", false).all, 2);
    assert_eq!(text_line_counts(b"one\ntwo", false).all, 2);
    assert_eq!(text_line_counts(b"binary\0data\n", false).all, 0);
}

#[test]
fn counts_all_and_non_blank_text_lines_in_one_pass() {
    assert_eq!(
        text_line_counts(b"one\n\n  \n\ttwo\nthree", true),
        LineCount { all: 5, non_blank: 3 }
    );
    assert_eq!(text_line_counts(b"binary\0data\n", true), LineCount::default());
}

#[test]
fn skips_non_blank_counting_when_not_requested() {
    assert_eq!(text_line_counts(b"one\n\nthree\n", false), LineCount { all: 3, non_blank: 0 });
}

#[test]
fn ignores_case_when_classifying() {
    for (lower, upper) in [("a/b/main.rs", "A/B/MAIN.RS"), ("makefile", "MAKEFILE"), ("x.Md", "x.mD")] {
        assert_eq!(classify_path(lower.as_bytes()), classify_path(upper.as_bytes()));
    }
    assert_eq!(classify_path(b"GNUmakefile"), Language::Makefile);
    assert_eq!(classify_path(b"dir.rs/file"), Language::Other);
    assert_eq!(classify_path(b"archive.tar.GZ"), Language::Other);
    assert_eq!(classify_path(b"style.SCSS"), Language::Css);
}

#[test]
fn looks_for_nul_bytes_only_in_the_first_eight_thousand_bytes() {
    let mut late = vec![b'a'; 8000];
    late.push(0);
    late.push(b'\n');
    assert_eq!(text_line_counts(&late, false).all, 1);
    let mut early = vec![b'a'; 7999];
    early.push(0);
    assert_eq!(text_line_counts(&early, false).all, 0);
}

#[test]
fn never_counts_more_non_blank_lines_than_lines() {
    for contents in [&b" \n\t\n"[..], b"a\n\nb", b"\n", b"x"] {
        let count = text_line_counts(contents, true);
        assert!(count.non_blank <= count.all);
    }
    assert_eq!(text_line_counts(b"\n", true), LineCount { all: 1, non_blank: 0 });
}

#[test]
fn taking_away_a_files_lines_undoes_adding_them() {
    let start = LineCount { all: 10, non_blank: 7 };
    let file = LineCount { all: 4, non_blank: 2 };
    let mut total = start;
    total.add(file, "new").unwrap();
    assert_eq!(total, LineCount { all: 14, non_blank: 9 });
    total.remove(file, "old").unwrap();
    assert_eq!(total, start);
}

#[test]
fn reports_each_running_total_error_and_keeps_the_total() {
    let mut total = LineCount { all: 3, non_blank: 1 };
    assert_eq!(
        total.remove(LineCount { all: 4, non_blank: 0 }, "abc"),
        Err("line count underflow while removing abc".to_owned())
    );
    assert_eq!(
        total.remove(LineCount { all: 2, non_blank: 2 }, "abc"),
        Err("non-blank line count underflow while removing abc".to_owned())
    );
    assert_eq!(
        total.add(LineCount { all: u64::MAX, non_blank: 0 }, "def"),
        Err("line count overflow while adding def".to_owned())
    );
    assert_eq!(
        total.add(LineCount { all: 0, non_blank: u64::MAX }, "def"),
        Err("non-blank line count overflow while adding def".to_owned())
    );
    assert_eq!(total, LineCount { all: 3, non_blank: 1 });
}

#[test]
fn keeps_language_totals_and_drops_languages_that_reach_zero() {
    let mut totals = LanguageCounts::new();
    add_language_lines(&mut totals, Language::Rust, 5, "a").unwrap();
    add_language_lines(&mut totals, Language::Go, 0, "b").unwrap();
    assert_eq!(totals.get(Language::Rust), Some(5));
    assert_eq!(totals.get(Language::Go), None);
    remove_language_lines(&mut totals, Language::Rust, 2, "c").unwrap();
    assert_eq!(totals.get(Language::Rust), Some(3));
    remove_language_lines(&mut totals, Language::Rust, 3, "d").unwrap();
    assert_eq!(totals.get(Language::Rust), None);
    assert_eq!(
        remove_language_lines(&mut totals, Language::Python, 1, "e"),
        Err("Python line count underflow while removing e".to_owned())
    );
    add_language_lines(&mut totals, Language::C, u64::MAX, "f").unwrap();
    assert_eq!(
        add_language_lines(&mut totals, Language::C, 1, "g"),
        Err("C line count overflow while adding g".to_owned())
    );
    assert_eq!(totals.get(Language::C), Some(u64::MAX));
}

#[test]
fn language_lines_taken_away_restore_the_totals() {
    let mut totals = LanguageCounts::new();
    totals.insert(Language::Rust, 7);
    add_language_lines(&mut totals, Language::Rust, 4, "x").unwrap();
    remove_language_lines(&mut totals, Language::Rust, 4, "x").unwrap();
    assert_eq!(totals.get(Language::Rust), Some(7));
}

#[test]
fn reads_the_blob_header_of_cat_file() {
    assert_eq!(parse_cat_file_header("abc blob 12\n", "abc"), Ok(12));
    assert_eq!(
        parse_cat_file_header("abc blob\n", "abc"),
        Err("malformed cat-file header: \"abc blob\\n\"".to_owned())
    );
    assert_eq!(
        parse_cat_file_header("abc blob -1\n", "abc"),
        Err("invalid blob size in cat-file header: \"abc blob -1\\n\"".to_owned())
    );
    assert_eq!(
        parse_cat_file_header("abd blob 3\n", "abc"),
        Err("unexpected cat-file header: \"abd blob 3\\n\"".to_owned())
    );
    assert_eq!(
        parse_cat_file_header("abc missing\n", "abc"),
        Err("malformed cat-file header: \"abc missing\\n\"".to_owned())
    );
    assert_eq!(
        parse_cat_file_header("abc tree 3\n", "abc"),
        Err("unexpected cat-file header: \"abc tree 3\\n\"".to_owned())
    );
}
