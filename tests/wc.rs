use textutils::wc::{count, ends_batch, totals, Config, FileInfo};

fn info(l: usize, w: usize, b: usize, c: usize) -> FileInfo {
    FileInfo { num_lines: l, num_words: w, num_bytes: b, num_chars: c }
}

fn all_files(names: &[&str]) -> Vec<String> {
    names.iter().map(|s| s.to_string()).collect()
}

#[test]
fn test_count() {
    let text = "Be careful for what you wish for, cause you just might get it all.\r\n";
    let info = count(text.as_bytes());
    let expected = FileInfo {
        num_lines: 1,
        num_words: 14,
        num_bytes: 68,
        num_chars: 68,
    };
    assert_eq!(info, expected);
}

#[test]
fn count_empty_input() {
    assert_eq!(count(b""), info(0, 0, 0, 0));
}

#[test]
fn count_last_line_without_terminator() {
    assert_eq!(count(b"a\nb").num_lines, 2);
    assert_eq!(count(b"a\nb\n").num_lines, 2);
    assert_eq!(count(b"\n\n\n").num_lines, 3);
    assert_eq!(count(b"abc").num_lines, 1);
}

#[test]
fn count_words_ignore_extra_whitespace() {
    assert_eq!(count(b"foo bar").num_words, 2);
    assert_eq!(count(b"foo \t\x0b\x0c bar").num_words, 2);
    assert_eq!(count(b"  \t foo bar \r\n").num_words, 2);
    assert_eq!(count(b"foo baz bar").num_words, 3);
    assert_eq!(count(b" \n\t ").num_words, 0);
}

#[test]
fn count_bytes_and_chars_of_multibyte_text() {
    let r = count("h\u{e9}llo w\u{f6}rld\n".as_bytes());
    assert_eq!(r, info(1, 2, 14, 12));
}

#[test]
fn count_invalid_utf8_leniently() {
    // a truncated three-byte sequence decodes to one replacement character
    let r = count(&[0xe2, 0x82, b'\n']);
    assert_eq!(r, info(1, 1, 3, 2));
    let r = count(&[0xff, 0xfe, b' ', b'x', b'\n', 0xc3]);
    assert_eq!(r.num_lines, 2);
    assert_eq!(r.num_bytes, 6);
    assert_eq!(r.num_chars, 6);
    assert!(r.num_chars <= r.num_bytes);
}

#[test]
fn count_ascii_chars_equal_bytes() {
    let r = count(b"one two\nthree\tfour five\n");
    assert_eq!(r.num_chars, r.num_bytes);
    assert_eq!(r, info(2, 5, 24, 24));
}

#[test]
fn add_sums_and_detects_overflow() {
    let a = info(1, 2, 3, 4);
    let b = info(10, 20, 30, 40);
    assert_eq!(a.add(&b), Some(info(11, 22, 33, 44)));
    let big = info(usize::MAX, 0, 0, 0);
    assert_eq!(big.add(&info(1, 0, 0, 0)), None);
    assert_eq!(FileInfo::zero(), info(0, 0, 0, 0));
}

#[test]
fn totals_equal_sum_of_each_input() {
    let a = count(b"foo bar\nbaz\n");
    let b = count(b"qux\n");
    let t = totals(&vec![a, b]).unwrap();
    assert_eq!(t, info(3, 4, 16, 16));
    assert_eq!(totals(&vec![]), Some(info(0, 0, 0, 0)));
    assert_eq!(totals(&vec![info(0, usize::MAX, 0, 0), info(0, 1, 0, 0)]), None);
}

#[test]
fn config_defaults_and_conflicts() {
    let c = Config::new(all_files(&["-"]), false, false, false, false).unwrap();
    assert!(c.lines && c.words && c.bytes && !c.chars);
    let c = Config::new(all_files(&["-"]), false, false, false, true).unwrap();
    assert!(!c.lines && !c.words && !c.bytes && c.chars);
    assert!(Config::new(all_files(&["-"]), true, false, true, true).is_err());
}

#[test]
fn report_of_two_files_with_totals() {
    let cfg = Config::new(all_files(&["a.txt", "b.txt"]), false, false, false, false).unwrap();
    let a = count(b"foo bar\n");
    let b = count(b"qux\n");
    assert_eq!(cfg.row(&a, "a.txt", 2), b"       1       2       8 a.txt\n".to_vec());
    assert_eq!(cfg.row(&b, "b.txt", 2), b"       1       1       4 b.txt\n".to_vec());
    let t = totals(&vec![a, b]).unwrap();
    assert_eq!(cfg.total_row(&t, 2), b"       2       3      12 total\n".to_vec());
}

#[test]
fn report_of_two_files_two_lines_each() {
    let cfg = Config::new(all_files(&["a.txt", "b.txt"]), true, true, true, false).unwrap();
    let a = count(b"foo bar\nbaz\n");
    let b = count(b"qux\n");
    assert_eq!(cfg.row(&a, "a.txt", 2), b"       2       3      12 a.txt\n".to_vec());
    assert_eq!(cfg.row(&b, "b.txt", 2), b"       1       1       4 b.txt\n".to_vec());
    let t = totals(&vec![a, b]).unwrap();
    assert_eq!(cfg.total_row(&t, 2), b"       3       4      16 total\n".to_vec());
}

#[test]
fn report_of_one_file_has_no_name_and_no_total() {
    let cfg = Config::new(all_files(&["a.txt"]), false, false, false, false).unwrap();
    let a = count(b"foo bar\nbaz\n");
    assert_eq!(cfg.row(&a, "a.txt", 1), b"       2       3      12\n".to_vec());
    assert!(cfg.total_row(&a, 1).is_empty());
}

#[test]
fn report_selected_columns_only() {
    let a = info(5, 6, 7, 8);
    let cfg = Config::new(all_files(&["x"]), false, true, false, true).unwrap();
    assert_eq!(cfg.row(&a, "x", 3), b"       6       8 x\n".to_vec());
    let cfg = Config::new(all_files(&["x"]), true, false, false, false).unwrap();
    assert_eq!(cfg.row(&a, "x", 1), b"       5\n".to_vec());
    let wide = info(123456789, 0, 0, 0);
    assert_eq!(cfg.row(&wide, "x", 1), b"123456789\n".to_vec());
}

#[test]
fn standard_input_ends_batch() {
    assert!(ends_batch("-"));
    assert!(!ends_batch("a.txt"));
    assert!(!ends_batch("--"));
    assert!(!ends_batch(""));
}

#[test]
fn counts_of_records_add_up_to_whole() {
    let whole = count("ab cd\n\u{e9}f\n  \ngh".as_bytes());
    let mut sum = FileInfo::zero();
    for rec in ["ab cd\n", "\u{e9}f\n", "  \n", "gh"] {
        sum = sum.add(&count(rec.as_bytes())).unwrap();
    }
    assert_eq!(sum, whole);
    assert_eq!(whole, info(4, 4, 15, 14));
}
