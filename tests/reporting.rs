use wc::{
    any_failed, decimal_width, process_file, process_files0_from, stdin_listed_twice, total,
    with_total, FileInfo, NamedOutcome, Selection, WCError,
};

fn row(name: &str, outcome: Result<FileInfo, WCError>) -> NamedOutcome {
    NamedOutcome { name: name.to_string(), outcome }
}

fn info(bytes: usize, chars: usize, lines: usize, words: usize, max_line_length: usize) -> FileInfo {
    FileInfo { bytes, chars, lines, words, max_line_length }
}

#[test]
fn scenario_valid_and_missing_stream() {
    let first = process_file(b"abc\n").unwrap();
    assert_eq!(first, info(4, 4, 1, 1, 3));
    let rows = vec![
        row("a.txt", Ok(first)),
        row("missing", Err(WCError::Io("No such file or directory".to_string()))),
    ];
    assert!(any_failed(&rows));
    assert_eq!(total(&rows), Some(first));
    let out = with_total(rows).unwrap();
    assert_eq!(out.len(), 3);
    assert_eq!(out[0].name, "a.txt");
    assert!(matches!(out[0].outcome, Ok(i) if i == first));
    assert_eq!(out[1].name, "missing");
    assert!(matches!(out[1].outcome, Err(WCError::Io(_))));
    assert_eq!(out[2].name, "total");
    assert!(matches!(out[2].outcome, Ok(i) if i == first));
}

#[test]
fn scenario_name_list() {
    let names = process_files0_from(b"a\0b\0").unwrap();
    assert_eq!(names, vec!["a".to_string(), "b".to_string()]);
    let contents: Vec<&[u8]> = vec![b"x y\n", b"z\n\n"];
    let rows: Vec<NamedOutcome> = names
        .iter()
        .zip(contents.iter())
        .map(|(n, c)| row(n, process_file(c)))
        .collect();
    let out = with_total(rows).unwrap();
    assert_eq!(out.len(), 3);
    assert!(matches!(out[0].outcome, Ok(i) if i == info(4, 4, 1, 2, 3)));
    assert!(matches!(out[1].outcome, Ok(i) if i == info(3, 3, 2, 1, 1)));
    assert!(matches!(out[2].outcome, Ok(i) if i == info(7, 7, 3, 3, 3)));
}

#[test]
fn name_list_without_final_nul_and_empty_names() {
    assert_eq!(process_files0_from(b"a\0b").unwrap(), vec!["a".to_string(), "b".to_string()]);
    assert_eq!(
        process_files0_from(b"a\0\0c\0").unwrap(),
        vec!["a".to_string(), String::new(), "c".to_string()]
    );
    assert!(process_files0_from(b"").unwrap().is_empty());
    assert_eq!(process_files0_from("dé\0".as_bytes()).unwrap(), vec!["dé".to_string()]);
}

#[test]
fn name_list_invalid_utf8_fails() {
    let r = process_files0_from(b"ok\0\xff\0");
    assert!(matches!(r, Err(WCError::Utf8 { chunk_start: 3 })));
}

#[test]
fn total_is_order_free() {
    let a = info(10, 9, 2, 3, 7);
    let b = info(5, 5, 1, 1, 4);
    let ab = vec![row("a", Ok(a)), row("b", Ok(b))];
    let ba = vec![row("b", Ok(b)), row("a", Ok(a))];
    assert_eq!(total(&ab), total(&ba));
    assert_eq!(total(&ab), Some(info(15, 14, 3, 4, 7)));
}

#[test]
fn total_skips_failures_and_takes_max() {
    let rows = vec![
        row("a", Ok(info(1, 1, 1, 0, 0))),
        row("b", Err(WCError::Utf8 { chunk_start: 0 })),
        row("c", Ok(info(20, 18, 2, 4, 12))),
    ];
    assert_eq!(total(&rows), Some(info(21, 19, 3, 4, 12)));
    assert!(any_failed(&rows));
    assert_eq!(total(&Vec::new()), Some(FileInfo::new()));
}

#[test]
fn total_overflow_is_none() {
    let big = info(usize::MAX, 0, 0, 0, 0);
    let rows = vec![row("a", Ok(big)), row("b", Ok(info(1, 0, 0, 0, 0)))];
    assert_eq!(total(&rows), None);
    assert!(with_total(rows).is_none());
}

#[test]
fn single_row_gets_no_total() {
    let rows = vec![row("only", Ok(info(3, 3, 1, 1, 2)))];
    assert!(!any_failed(&rows));
    let out = with_total(rows).unwrap();
    assert_eq!(out.len(), 1);
    assert_eq!(out[0].name, "only");
    assert!(with_total(Vec::new()).unwrap().is_empty());
}

#[test]
fn checked_sum_adds_and_maxes() {
    let a = info(3, 3, 1, 1, 2);
    let b = info(4, 2, 0, 5, 9);
    assert_eq!(a.checked_sum(&b), Some(info(7, 5, 1, 6, 9)));
    assert_eq!(info(0, usize::MAX, 0, 0, 0).checked_sum(&info(0, 1, 0, 0, 0)), None);
    let mut c = a;
    c.absorb(&b);
    assert_eq!(c, info(7, 5, 1, 6, 9));
}

#[test]
fn default_selection() {
    let none = Selection { lines: false, words: false, bytes: false, chars: false, max_line_length: false };
    let d = none.or_default();
    assert_eq!(d, Selection { lines: true, words: true, bytes: true, chars: false, max_line_length: false });
    let only_chars = Selection { chars: true, ..none };
    assert_eq!(only_chars.or_default(), only_chars);
}

#[test]
fn columns_in_display_order() {
    let all = Selection { lines: true, words: true, bytes: true, chars: true, max_line_length: true };
    let i = info(14, 12, 1, 2, 11);
    assert_eq!(all.columns(&i), vec![1, 2, 12, 14, 11]);
    let some = Selection { lines: false, words: true, bytes: false, chars: true, max_line_length: false };
    assert_eq!(some.columns(&i), vec![2, 12]);
    let both = Selection { lines: false, words: false, bytes: true, chars: true, max_line_length: false };
    assert_eq!(both.columns(&i), vec![12, 14]);
}

#[test]
fn decimal_widths() {
    assert_eq!(decimal_width(0), 1);
    assert_eq!(decimal_width(9), 1);
    assert_eq!(decimal_width(10), 2);
    assert_eq!(decimal_width(12345), 5);
    assert_eq!(decimal_width(usize::MAX), usize::MAX.to_string().len());
}

#[test]
fn stdin_named_in_stdin_list() {
    let names = vec!["a".to_string(), "-".to_string()];
    assert!(stdin_listed_twice("-", &names));
    assert!(!stdin_listed_twice("list.txt", &names));
    assert!(!stdin_listed_twice("-", &vec!["a".to_string(), "--".to_string()]));
    assert!(wc::names::names_stdin("-"));
    assert!(!wc::names::names_stdin(""));
    assert!(!wc::names::names_stdin("-a"));
}

#[test]
fn name_list_joins_back_to_input() {
    let cases: Vec<&[u8]> = vec![b"a\0b\0", b"a\0b", b"", b"\0", b"x\0\0y", "d\u{e9}\0z".as_bytes()];
    for data in cases {
        let names = process_files0_from(data).unwrap();
        for n in &names {
            assert!(!n.contains('\0'));
        }
        let body = data.strip_suffix(b"\0").unwrap_or(data);
        assert_eq!(names.join("\0").as_bytes(), body);
        let nuls = data.iter().filter(|b| **b == 0).count();
        let open_end = usize::from(!data.is_empty() && *data.last().unwrap() != 0);
        assert_eq!(names.len(), nuls + open_end);
    }
}
