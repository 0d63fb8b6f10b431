use wc::{process_file, scan_chunks, tally_chunk, FileInfo, WCError};

fn info(bytes: usize, chars: usize, lines: usize, words: usize, max_line_length: usize) -> FileInfo {
    FileInfo { bytes, chars, lines, words, max_line_length }
}

#[test]
fn scenario_two_lines() {
    let data = b"hi\nworld\n";
    let chunks = scan_chunks(data, b'\n');
    assert_eq!(chunks, vec![b"hi\n".to_vec(), b"world\n".to_vec()]);
    assert_eq!(chunks[0].len(), 3);
    assert_eq!(chunks[1].len(), 6);
    let r = process_file(data).unwrap();
    assert_eq!(r, info(9, 9, 2, 2, 5));
}

#[test]
fn chunks_rejoin_to_input() {
    let cases: Vec<(&[u8], u8)> = vec![
        (b"", b'\n'),
        (b"\n", b'\n'),
        (b"abc", b'\n'),
        (b"a\nb\n\nc", b'\n'),
        (b"one\0two\0", 0),
        (b"\0\0x", 0),
    ];
    for (data, delim) in cases {
        let chunks = scan_chunks(data, delim);
        let joined: Vec<u8> = chunks.concat();
        assert_eq!(joined, data.to_vec());
        for (i, c) in chunks.iter().enumerate() {
            assert!(!c.is_empty());
            let inner = &c[..c.len() - 1];
            assert!(!inner.contains(&delim));
            if i + 1 < chunks.len() {
                assert_eq!(*c.last().unwrap(), delim);
            }
        }
    }
}

#[test]
fn chunk_without_delimiter_is_whole_input() {
    assert_eq!(scan_chunks(b"no newline", b'\n'), vec![b"no newline".to_vec()]);
    assert!(scan_chunks(b"", b'\n').is_empty());
}

#[test]
fn next_chunk_end_positions() {
    let data = b"ab\ncd";
    assert_eq!(wc::next_chunk_end(data, 0, b'\n'), 3);
    assert_eq!(wc::next_chunk_end(data, 3, b'\n'), 5);
    assert_eq!(wc::next_chunk_end(data, 5, b'\n'), 5);
}

#[test]
fn empty_stream_counts_zero() {
    let r = process_file(b"");
    assert_eq!(r.unwrap(), FileInfo::new());
    assert_eq!(FileInfo::new(), info(0, 0, 0, 0, 0));
}

#[test]
fn only_line_feeds() {
    for k in 0..6usize {
        let data = vec![b'\n'; k];
        let r = process_file(&data).unwrap();
        assert_eq!(r, info(k, k, k, 0, 0));
    }
}

#[test]
fn unterminated_end_adds_no_line() {
    let r = process_file(b"ab\ncd ef").unwrap();
    assert_eq!(r, info(8, 8, 1, 3, 2));
    let head = process_file(b"ab\n").unwrap();
    assert_eq!(r.lines, head.lines);
    assert_eq!(r.max_line_length, head.max_line_length);
    assert_eq!(r.bytes, head.bytes + 5);
    assert_eq!(r.words, head.words + 2);
}

#[test]
fn unterminated_end_not_a_longest_line() {
    let r = process_file(b"a\nthis is long").unwrap();
    assert_eq!(r.lines, 1);
    assert_eq!(r.max_line_length, 1);
    assert_eq!(r.chars, 14);
}

#[test]
fn multibyte_characters() {
    let text = "héllo wörld\n";
    let r = process_file(text.as_bytes()).unwrap();
    assert_eq!(r, info(14, 12, 1, 2, 11));
}

#[test]
fn unicode_white_space_splits_words() {
    let text = "a\u{3000}b\u{a0}c\td  e\r\n";
    let r = process_file(text.as_bytes()).unwrap();
    assert_eq!(r.words, 5);
    assert_eq!(r.lines, 1);
}

#[test]
fn invalid_utf8_reports_chunk_start() {
    let r = process_file(b"ok\n\xff\nmore\n");
    assert!(matches!(r, Err(WCError::Utf8 { chunk_start: 3 })));
    let r = process_file(b"\xc3");
    assert!(matches!(r, Err(WCError::Utf8 { chunk_start: 0 })));
}

#[test]
fn tally_chunk_decodes() {
    let r = tally_chunk("é\n".as_bytes()).unwrap();
    assert_eq!(r, info(3, 2, 1, 1, 1));
    assert!(tally_chunk(b"\xed\xa0\x80").is_none());
    assert_eq!(tally_chunk(b"").unwrap(), info(0, 0, 0, 0, 0));
}

#[test]
fn add_chunk_accumulates_and_keeps_counts_on_error() {
    let mut acc = FileInfo::new();
    acc.add_chunk(b"one two\n").unwrap();
    acc.add_chunk(b"three\n").unwrap();
    assert_eq!(acc, info(14, 14, 2, 3, 7));
    let before = acc;
    let r = acc.add_chunk(b"\xfe\n");
    assert!(matches!(r, Err(WCError::Utf8 { chunk_start: 14 })));
    assert_eq!(acc, before);
}

#[test]
fn white_space_matches_std() {
    for v in 0u32..=0x10ffff {
        if let Some(c) = char::from_u32(v) {
            assert_eq!(wc::is_white_space(c), c.is_whitespace(), "{:x}", v);
        }
    }
}

#[test]
fn interleaved_streams_match_each_alone() {
    let streams: Vec<Vec<u8>> = vec![
        b"abc\n".to_vec(),
        b"one two three\nfour\n".to_vec(),
        Vec::new(),
        "\u{fc}n\u{ef}code line\nno end".as_bytes().to_vec(),
        b"\n\n\n".to_vec(),
    ];
    let alone: Vec<FileInfo> = streams.iter().map(|s| process_file(s).unwrap()).collect();
    let chunked: Vec<Vec<Vec<u8>>> = streams.iter().map(|s| scan_chunks(s, b'\n')).collect();
    let mut accs: Vec<FileInfo> = vec![FileInfo::new(); streams.len()];
    let longest = chunked.iter().map(|c| c.len()).max().unwrap();
    for step in 0..longest {
        for (k, cs) in chunked.iter().enumerate().rev() {
            if let Some(c) = cs.get(step) {
                accs[k].add_chunk(c).unwrap();
            }
        }
    }
    assert_eq!(accs, alone);
}
