use trawl::encoding::{decode_content, detect_encoding, Encoding};
use trawl::matching::find_pattern;
use trawl::options::{CmdOption, CmdOptions};
use trawl::search::{
    decode_raw_line, lacks_text, plan_search, search_file, search_marked, LineSearch, Plan, Step,
};

// Colouring is switched off, so that the reports can be compared as plain text.
fn run_search(bytes: &[u8], pattern: &str, name_hint: &str) -> Vec<String> {
    run_search_with_case(bytes, pattern, name_hint, true)
}

fn run_search_with_case(
    bytes: &[u8],
    pattern: &str,
    name_hint: &str,
    case_sensitive: bool,
) -> Vec<String> {
    colored::control::set_override(false);
    let path = format!("/tmp/trawl_test_{}.txt", name_hint);
    search_file(&path, pattern, bytes, bytes, case_sensitive)
}

fn utf16_bytes(text: &str, big_endian: bool, bom: bool) -> Vec<u8> {
    let mut out = Vec::new();
    if bom {
        out.extend_from_slice(if big_endian {
            &[0xFE, 0xFF]
        } else {
            &[0xFF, 0xFE]
        });
    }
    for unit in text.encode_utf16() {
        out.extend_from_slice(&if big_endian {
            unit.to_be_bytes()
        } else {
            unit.to_le_bytes()
        });
    }
    out
}

fn utf32_bytes(text: &str, big_endian: bool, bom: bool) -> Vec<u8> {
    let mut out = Vec::new();
    if bom {
        out.extend_from_slice(if big_endian {
            &[0x00, 0x00, 0xFE, 0xFF]
        } else {
            &[0xFF, 0xFE, 0x00, 0x00]
        });
    }
    for ch in text.chars() {
        let code = ch as u32;
        out.extend_from_slice(&if big_endian {
            code.to_be_bytes()
        } else {
            code.to_le_bytes()
        });
    }
    out
}

#[test]
fn detects_encodings_by_bom() {
    assert_eq!(detect_encoding(&[0xEF, 0xBB, 0xBF, b'h']), Encoding::Utf8Bom);
    assert_eq!(detect_encoding(&[0xFF, 0xFE, b'h', 0]), Encoding::Utf16Le);
    assert_eq!(detect_encoding(&[0xFE, 0xFF, 0, b'h']), Encoding::Utf16Be);
    assert_eq!(detect_encoding(&[0xFF, 0xFE, 0x00, 0x00]), Encoding::Utf32Le);
    assert_eq!(detect_encoding(&[0x00, 0x00, 0xFE, 0xFF]), Encoding::Utf32Be);
    assert_eq!(detect_encoding(b"plain text"), Encoding::Unmarked);
}

#[test]
fn searches_plain_utf8_without_bom() {
    let results = run_search(b"hello needle world\n", "needle", "plain");
    assert_eq!(results.len(), 1);
    assert!(results[0].contains(":1:"));
}

#[test]
fn searches_utf8_with_bom() {
    let mut bytes = vec![0xEF, 0xBB, 0xBF];
    bytes.extend_from_slice(b"line one\nfind needle here\nline three\n");
    let results = run_search(&bytes, "needle", "utf8bom");
    assert_eq!(results.len(), 1);
    assert!(results[0].contains(":2:"));
}

#[test]
fn does_not_leak_bom_char_into_first_line() {
    let mut bytes = vec![0xEF, 0xBB, 0xBF];
    bytes.extend_from_slice(b"needle at start\n");
    let results = run_search(&bytes, "needle", "utf8bom_start");
    assert_eq!(results.len(), 1);
    // The BOM char (U+FEFF) must not end up glued onto the matched line.
    assert!(!results[0].contains('\u{feff}'));
    assert!(results[0].contains(":1:"));
}

#[test]
fn searches_utf16_le() {
    let bytes = utf16_bytes("line one\nfind needle here\nline three\n", false, true);
    let results = run_search(&bytes, "needle", "utf16le");
    assert_eq!(results.len(), 1);
    assert!(results[0].contains(":2:"));
}

#[test]
fn searches_utf16_be() {
    let bytes = utf16_bytes("line one\nfind needle here\nline three\n", true, true);
    let results = run_search(&bytes, "needle", "utf16be");
    assert_eq!(results.len(), 1);
    assert!(results[0].contains(":2:"));
}

#[test]
fn searches_utf32_le() {
    let bytes = utf32_bytes("line one\nfind needle here\nline three\n", false, true);
    let results = run_search(&bytes, "needle", "utf32le");
    assert_eq!(results.len(), 1);
    assert!(results[0].contains(":2:"));
}

#[test]
fn searches_utf32_be() {
    let bytes = utf32_bytes("line one\nfind needle here\nline three\n", true, true);
    let results = run_search(&bytes, "needle", "utf32be");
    assert_eq!(results.len(), 1);
    assert!(results[0].contains(":2:"));
}

#[test]
fn utf16_multiple_matches_on_different_lines() {
    let bytes = utf16_bytes("needle one\nno match\nneedle two\n", true, true);
    let results = run_search(&bytes, "needle", "utf16be_multi");
    assert_eq!(results.len(), 2);
    assert!(results[0].contains(":1:"));
    assert!(results[1].contains(":3:"));
}

#[test]
fn plain_binary_file_without_bom_is_skipped() {
    let bytes = vec![b'a', b'b', 0u8, b'c', b'd'];
    let results = run_search(&bytes, "ab", "binary");
    assert!(results.is_empty());
}

#[test]
fn find_pattern_case_insensitive_basic() {
    assert_eq!(find_pattern("Hello World", "world", false), Some(6));
    assert_eq!(find_pattern("Hello World", "world", true), None);
    assert_eq!(find_pattern("Hello World", "WORLD", false), Some(6));
}

#[test]
fn find_pattern_case_insensitive_leaves_non_ascii_bytes_intact() {
    // "caf\u{e9}" (non-ASCII 'e' with acute accent) must still match exactly, unaffected by folding.
    assert_eq!(find_pattern("café bar", "café", false), Some(0));
    assert_eq!(find_pattern("café bar", "CAFÉ", false), None);
}

#[test]
fn cmd_option_all_does_not_imply_case_sensitive() {
    let opts = CmdOptions {
        options: vec![CmdOption::All],
    };
    assert!(opts.has(CmdOption::Hidden));
    assert!(opts.has(CmdOption::Excluded));
    assert!(!opts.has(CmdOption::CaseSensitive));
}

#[test]
fn search_is_case_insensitive_by_default() {
    let results = run_search_with_case(b"Hello NEEDLE world\n", "needle", "ci_default", false);
    assert_eq!(results.len(), 1);
    assert!(results[0].contains(":1:"));
}

#[test]
fn search_with_case_sensitive_flag_rejects_different_case() {
    let results = run_search_with_case(b"Hello NEEDLE world\n", "needle", "cs_flag", true);
    assert!(results.is_empty());
}

#[test]
fn case_insensitive_search_works_across_all_encodings() {
    let text = "Find NEEDLE here\n";

    let mut utf8bom = vec![0xEF, 0xBB, 0xBF];
    utf8bom.extend_from_slice(text.as_bytes());
    assert_eq!(
        run_search_with_case(&utf8bom, "needle", "ci_utf8bom", false).len(),
        1
    );

    let utf16le = utf16_bytes(text, false, true);
    assert_eq!(
        run_search_with_case(&utf16le, "needle", "ci_utf16le", false).len(),
        1
    );

    let utf16be = utf16_bytes(text, true, true);
    assert_eq!(
        run_search_with_case(&utf16be, "needle", "ci_utf16be", false).len(),
        1
    );

    let utf32le = utf32_bytes(text, false, true);
    assert_eq!(
        run_search_with_case(&utf32le, "needle", "ci_utf32le", false).len(),
        1
    );

    let utf32be = utf32_bytes(text, true, true);
    assert_eq!(
        run_search_with_case(&utf32be, "needle", "ci_utf32be", false).len(),
        1
    );
}

#[test]
fn reports_path_number_and_line() {
    let results = run_search(b"one\ntwo needle\r\nneedle three", "needle", "exact");
    assert_eq!(
        results,
        vec![
            "/tmp/trawl_test_exact.txt:2: two needle".to_string(),
            "/tmp/trawl_test_exact.txt:3: needle three".to_string(),
        ]
    );
}

#[test]
fn reports_the_same_lines_in_every_encoding() {
    let text = "älpha\n\u{1f600} needle\nomega Needle\n";
    let mut utf8 = vec![0xEF, 0xBB, 0xBF];
    utf8.extend_from_slice(text.as_bytes());
    let expected = vec![
        "/tmp/trawl_test_same.txt:2: \u{1f600} needle".to_string(),
        "/tmp/trawl_test_same.txt:3: omega Needle".to_string(),
    ];
    assert_eq!(run_search_with_case(text.as_bytes(), "needle", "same", false), expected);
    assert_eq!(run_search_with_case(&utf8, "needle", "same", false), expected);
    for big_endian in [false, true] {
        let utf16 = utf16_bytes(text, big_endian, true);
        assert_eq!(run_search_with_case(&utf16, "needle", "same", false), expected);
        let utf32 = utf32_bytes(text, big_endian, true);
        assert_eq!(run_search_with_case(&utf32, "needle", "same", false), expected);
    }
}

#[test]
fn plain_lines_lose_all_trailing_returns_and_marked_lines_one() {
    let plain = run_search(b"needle\r\r\nneedle\r", "needle", "returns");
    assert_eq!(
        plain,
        vec![
            "/tmp/trawl_test_returns.txt:1: needle".to_string(),
            "/tmp/trawl_test_returns.txt:2: needle".to_string(),
        ]
    );
    let mut bytes = vec![0xEF, 0xBB, 0xBF];
    bytes.extend_from_slice(b"needle\r\r\nneedle\r");
    let marked = run_search(&bytes, "needle", "returns");
    assert_eq!(
        marked,
        vec![
            "/tmp/trawl_test_returns.txt:1: needle\r".to_string(),
            "/tmp/trawl_test_returns.txt:2: needle\r".to_string(),
        ]
    );
}

#[test]
fn invalid_bytes_do_not_hide_a_match() {
    let plain = run_search(b"a\xffb needle\n", "needle", "invalid");
    assert_eq!(plain, vec!["/tmp/trawl_test_invalid.txt:1: a\u{fffd}b needle".to_string()]);
    let marked = run_search(b"\xef\xbb\xbfa\xffb needle\n", "needle", "invalid");
    assert_eq!(marked, plain);
}

#[test]
fn keywords_are_found_before_between_and_behind_invalid_bytes() {
    let lines: [&[u8]; 3] = [b"needle\xff\n", b"\xe2\x82needle\xf0\x9f\x98\n", b"\x80\xc3NEEDLE"];
    let mut plain = b"\xfe\n".to_vec();
    for line in lines {
        plain.extend_from_slice(line);
    }
    let mut marked = vec![0xEF, 0xBB, 0xBF];
    marked.extend_from_slice(&plain);
    let expected = vec![
        "/tmp/trawl_test_among.txt:2: needle\u{fffd}".to_string(),
        "/tmp/trawl_test_among.txt:3: \u{fffd}needle\u{fffd}".to_string(),
        "/tmp/trawl_test_among.txt:4: \u{fffd}\u{fffd}NEEDLE".to_string(),
    ];
    assert_eq!(run_search_with_case(&plain, "needle", "among", false), expected);
    assert_eq!(run_search_with_case(&marked, "needle", "among", false), expected);
}

#[test]
fn valid_stretches_are_kept_at_their_ends() {
    assert_eq!(decode_raw_line(b"\xff\xc3\xa9 end\r\n"), "\u{fffd}\u{e9} end");
    assert_eq!(decode_raw_line(b"begin \xc3\xa9\xff\r\n"), "begin \u{e9}\u{fffd}");
    assert_eq!(
        decode_content(Encoding::Utf8Bom, b"\xef\xbb\xbfa\xff\n\xffb"),
        Some("a\u{fffd}\n\u{fffd}b".to_string())
    );
}

#[test]
fn empty_files_have_no_reports() {
    assert!(run_search(b"", "needle", "empty").is_empty());
    assert!(run_search(b"", "", "empty").is_empty());
    assert!(run_search(&[0xFF, 0xFE], "", "empty").is_empty());
    assert!(run_search(&[0xEF, 0xBB, 0xBF], "needle", "empty").is_empty());
    assert!(run_search(b"\n\n\n", "needle", "empty").is_empty());
}

#[test]
fn plan_follows_the_first_bytes() {
    assert_eq!(plan_search(b"text"), Plan::Lines);
    assert_eq!(plan_search(b""), Plan::Lines);
    assert_eq!(plan_search(b"te\0xt"), Plan::Skip);
    assert_eq!(plan_search(&[0xFE, 0xFF, 0x00, 0x41]), Plan::Decode(Encoding::Utf16Be));
    assert_eq!(plan_search(&[0xFF, 0xFE, 0x00, 0x00]), Plan::Decode(Encoding::Utf32Le));
}

#[test]
fn only_the_bytes_seen_first_decide_that_a_file_is_binary() {
    colored::control::set_override(false);
    let content = b"needle here\nzero \0 byte\n";
    let results = search_file("f", "needle", &content[..4], content, true);
    assert_eq!(results, vec!["f:1: needle here".to_string()]);
    assert!(search_file("f", "needle", content, content, true).is_empty());
}

#[test]
fn content_shorter_than_its_mark_has_no_reports() {
    assert!(search_marked("f", "a", Encoding::Utf32Be, &[0x00, 0x00], true).is_empty());
    assert!(search_marked("f", "a", Encoding::Utf8Bom, b"", true).is_empty());
}

#[test]
fn content_lacks_text_until_a_character_fits() {
    assert!(lacks_text(Encoding::Utf8Bom, &[0xEF, 0xBB, 0xBF]));
    assert!(!lacks_text(Encoding::Utf8Bom, &[0xEF, 0xBB, 0xBF, b'a']));
    assert!(lacks_text(Encoding::Utf16Le, &[0xFF, 0xFE, b'a']));
    assert!(!lacks_text(Encoding::Utf16Le, &[0xFF, 0xFE, b'a', 0]));
    assert!(lacks_text(Encoding::Utf32Be, &[0, 0, 0xFE, 0xFF, 0, 0, 0]));
    assert!(!lacks_text(Encoding::Utf32Be, &[0, 0, 0xFE, 0xFF, 0, 0, 0, b'a']));
}

#[test]
fn utf16_text_that_begins_with_zero_is_taken_for_utf32() {
    let bytes = utf16_bytes("\0needle", false, true);
    assert_eq!(detect_encoding(&bytes), Encoding::Utf32Le);
}

#[test]
fn line_search_counts_lines_and_stops() {
    colored::control::set_override(false);
    let mut search = LineSearch::new();
    assert!(matches!(
        search.step(Some(b"nothing\n"), "f", "needle", false),
        Step::Continue(None)
    ));
    match search.step(Some(b"a NEEDLE\r\n"), "f", "needle", false) {
        Step::Continue(Some(hit)) => assert_eq!(hit, "f:2: a NEEDLE"),
        other => panic!("unexpected step: {:?}", other),
    }
    assert!(matches!(search.step(Some(b""), "f", "needle", false), Step::Stop));
    assert!(matches!(search.step(None, "f", "needle", false), Step::Stop));
    assert_eq!(search.line_no(), 2);
}

#[test]
fn raw_lines_are_repaired_and_trimmed() {
    assert_eq!(decode_raw_line(b"caf\xc3\xa9\r\n"), "caf\u{e9}");
    assert_eq!(decode_raw_line(b"ab\xff\xfecd\n"), "ab\u{fffd}\u{fffd}cd");
    assert_eq!(decode_raw_line(b"\n"), "");
}
