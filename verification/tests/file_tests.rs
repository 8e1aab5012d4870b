use std::path::Path;

use word_tools::analyzer::{
    analyze_file, find_word, is_text_extension, is_text_file, search_word, Analysis,
    SearchOutcome,
};
use word_tools::paths::path_extension;
use word_tools::treesave;

const PATHS: [&str; 22] = [
    "",
    "/",
    ".",
    "..",
    "a",
    "a.txt",
    "dir/a.txt",
    "dir/a.tar.gz",
    ".bashrc",
    "dir/.bashrc",
    "a.",
    "..a",
    "dir/",
    "dir/file.rs/",
    "dir/file.rs/.",
    "dir/..",
    "./x.md",
    "a/./b.json/./",
    "/abs/path/c.TOML",
    "x..y",
    "dir.d/noext",
    "weird/é.Ñ",
];

#[test]
fn extension_matches_std_path() {
    for p in PATHS {
        let expected = Path::new(p).extension().map(|e| e.to_str().unwrap().to_string());
        assert_eq!(path_extension(p), expected, "{:?}", p);
    }
}

#[test]
fn analyzer_text_files() {
    assert!(is_text_file("notes.txt", 10));
    assert!(is_text_file("data/Report.CSV", 10));
    assert!(is_text_file("script.py", 1));
    assert!(!is_text_file("image.png", 100));
    assert!(!is_text_file("Makefile", 100));
    assert!(is_text_file("Makefile", 0));
    assert!(is_text_file("image.png", 0));
    assert!(!is_text_file(".txt", 5));
    assert!(is_text_file("a.YAML", 5));
    assert!(is_text_extension("xml"));
    assert!(!is_text_extension("XML"));
}

#[test]
fn treesave_text_files() {
    assert!(treesave::is_text_file("a.rs", 3));
    assert!(!treesave::is_text_file("a.py", 3));
    assert!(!treesave::is_text_file("a.csv", 3));
    assert!(treesave::is_text_file("a.py", 0));
    assert!(treesave::is_text_file("A.YML", 3));
    assert!(!treesave::is_text_extension("yaml"));
}

#[test]
fn dumped_files_are_analyzed() {
    for p in PATHS {
        for size in [0u64, 7] {
            if treesave::is_text_file(p, size) {
                assert!(is_text_file(p, size), "{:?}", p);
            }
        }
    }
}

#[test]
fn analyze_text_file() {
    let stats = analyze_file("dir/a.txt", Some("Hello world\nhello again\n"));
    assert_eq!(stats.path, "dir/a.txt");
    assert_eq!(stats.word_count, 4);
    assert_eq!(stats.line_count, 2);
    assert_eq!(stats.char_count, 24);
    assert_eq!(stats.unique_words, 3);
    assert_eq!(stats.word_frequency.get("hello"), Some(2));
    assert_eq!(stats.word_frequency.get("world"), Some(1));
    assert_eq!(stats.word_frequency.get("again"), Some(1));
}

#[test]
fn analyze_binary_file() {
    let stats = analyze_file("img.png", None);
    assert_eq!(stats.path, "img.png");
    assert_eq!(stats.word_count, 0);
    assert_eq!(stats.line_count, 0);
    assert_eq!(stats.char_count, 0);
    assert_eq!(stats.unique_words, 0);
    assert_eq!(stats.word_frequency.len(), 0);
}

#[test]
fn find_word_is_case_insensitive() {
    let stats = analyze_file("a.md", Some("Rust rust RUST verus"));
    assert_eq!(find_word(&stats, "rust"), Some(3));
    assert_eq!(find_word(&stats, "RuSt"), Some(3));
    assert_eq!(find_word(&stats, "VERUS"), Some(1));
    assert_eq!(find_word(&stats, "go"), None);
}

#[test]
fn analysis_counts_distinct_words_over_files() {
    let a = analyze_file("a.txt", Some("one two three"));
    let b = analyze_file("b.txt", Some("Two THREE four"));
    let c = analyze_file("c.png", None);
    let max_single = a.unique_words.max(b.unique_words);
    let analysis = Analysis::from_files(vec![a, b, c]);
    assert_eq!(analysis.files.len(), 3);
    assert_eq!(analysis.total_unique_words, 4);
    assert!(analysis.total_unique_words >= max_single);
    assert_eq!(analysis.files[1].path, "b.txt");
}

#[test]
fn empty_analysis() {
    let analysis = Analysis::from_files(vec![]);
    assert_eq!(analysis.total_unique_words, 0);
}

#[test]
fn search_outcomes() {
    let a = analyze_file("a.txt", Some("alpha beta"));
    let b = analyze_file("a.txt", Some("gamma"));
    let analysis = Analysis::from_files(vec![a, b]);
    assert_eq!(search_word(&analysis, "a.txt", "ALPHA"), SearchOutcome::Found(1));
    assert_eq!(search_word(&analysis, "a.txt", "gamma"), SearchOutcome::WordNotFound);
    assert_eq!(search_word(&analysis, "b.txt", "alpha"), SearchOutcome::FileNotFound);
}

#[test]
fn trailing_separators_keep_extension() {
    for p in ["dir/a.txt", "a.b.c", "x", ".bashrc"] {
        let slash = format!("{}/", p);
        let dot = format!("{}/.", p);
        assert_eq!(path_extension(&slash), path_extension(p));
        assert_eq!(path_extension(&dot), path_extension(p));
    }
}

#[test]
fn analysis_with_many_distinct_words() {
    let mut files = Vec::new();
    for f in 0..4 {
        let mut text = String::new();
        for i in 0..1000 {
            text.push_str(&format!("w{} ", f * 500 + i));
        }
        files.push(analyze_file("t.txt", Some(&text)));
    }
    let analysis = Analysis::from_files(files);
    assert_eq!(analysis.total_unique_words, 2500);
}
