use word_tools::treesave::{
    binary_placeholder, decimal_string, max_line_limit, output_file_name, parse_max_line,
    parse_usize, Dump,
};

#[test]
fn parse_max_line_unlimited_words() {
    assert_eq!(parse_max_line("infinity"), None);
    assert_eq!(parse_max_line("INFINITY"), None);
    assert_eq!(parse_max_line("Infinity"), None);
    assert_eq!(parse_max_line("-1"), None);
    assert_eq!(parse_max_line("0"), None);
}

#[test]
fn parse_max_line_numbers() {
    assert_eq!(parse_max_line("1000"), Some(1000));
    assert_eq!(parse_max_line("00"), Some(0));
    assert_eq!(parse_max_line("+7"), Some(7));
    assert_eq!(parse_max_line("abc"), None);
    assert_eq!(parse_max_line(""), None);
    assert_eq!(parse_max_line("-5"), None);
}

#[test]
fn max_line_limit_takes_lowered_form() {
    assert_eq!(max_line_limit("whatever", "infinity"), None);
    assert_eq!(max_line_limit("12", "12"), Some(12));
}

#[test]
fn parse_usize_matches_std() {
    let samples = [
        "", "+", "-", "0", "00", "+0", "-0", "7", "+7", "++7", "12a", " 1", "1 ", "٣",
        "18446744073709551615", "18446744073709551616", "99999999999999999999999", "4294967295",
        "4294967296",
    ];
    for s in samples {
        assert_eq!(parse_usize(s), s.parse::<usize>().ok(), "{:?}", s);
    }
}

#[test]
fn parse_round_trip() {
    for n in [0usize, 1, 9, 10, 99, 100, 12345, usize::MAX] {
        assert_eq!(parse_usize(&n.to_string()), Some(n));
        assert_eq!(parse_usize(&format!("+{}", n)), Some(n));
    }
}

#[test]
fn decimal_string_matches_std() {
    for n in [0u64, 5, 10, 42, 1000, 987654321, u64::MAX] {
        assert_eq!(decimal_string(n), n.to_string());
    }
}

#[test]
fn output_file_names() {
    assert_eq!(output_file_name(1700000000000), "treesave.1700000000000.txt");
    assert_eq!(output_file_name(0), "treesave.0.txt");
    assert_eq!(output_file_name(-12), "treesave.-12.txt");
    assert_eq!(output_file_name(i64::MIN), format!("treesave.{}.txt", i64::MIN));
}

#[test]
fn dump_entries() {
    let mut dump = Dump::new(Some(5));
    assert!(dump.may_continue());
    let t = dump.add_file("a.txt", "x\ny");
    assert_eq!(t, "a.txt:\nx\ny\n");
    assert_eq!(dump.line_count, 4);
    assert!(dump.may_continue());
    let t = dump.add_file("b.bin", "[binary]");
    assert_eq!(t, "b.bin:\n[binary]\n\n");
    assert_eq!(dump.line_count, 7);
    assert!(!dump.may_continue());
}

#[test]
fn dump_empty_and_trailing_newline() {
    let mut dump = Dump::new(None);
    let t = dump.add_file("e.txt", "");
    assert_eq!(t, "e.txt:\n\n");
    assert_eq!(dump.line_count, 2);
    let t = dump.add_file("f.txt", "line\n");
    assert_eq!(t, "f.txt:\nline\n\n");
    assert_eq!(dump.line_count, 5);
    assert!(dump.may_continue());
}

#[test]
fn dump_limit_zero_stops_at_once() {
    let dump = Dump::new(Some(0));
    assert!(!dump.may_continue());
}

#[test]
fn placeholder_text() {
    assert_eq!(binary_placeholder(), "[binary]");
}

#[test]
fn stop_is_final() {
    let mut dump = Dump::new(Some(3));
    dump.add_file("a", "x\ny\nz");
    assert!(!dump.may_continue());
    dump.add_file("b", "");
    assert!(!dump.may_continue());
}

#[test]
fn every_entry_counts_its_path_line() {
    let mut dump = Dump::new(None);
    for content in ["", "a", "[binary]", "a\nb\n"] {
        let before = dump.line_count;
        dump.add_file("p", content);
        assert!(dump.line_count >= before + 1);
    }
}
