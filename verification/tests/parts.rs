use trawl::duration::format_duration;
use trawl::encoding::{decode_content, decode_utf16, decode_utf32, Encoding};
use trawl::highlight::{highlight_all, join, split_matches};
use trawl::hit::{context_window, format_hit, process_line, Window};
use trawl::jobs::PendingJobs;
use trawl::matching::{ceil_char_boundary, contains_pattern, find_pattern, floor_char_boundary};
use trawl::options::{handle_args, parse_option, CmdOption, CmdOptions};
use trawl::paint::Color;
use trawl::text::{decimal_text, same_text, slice, split_lines, trim_line_end};
use trawl::walk::{
    handle_entry, is_cloud_placeholder, is_excluded_dir, is_hidden, is_skipped, is_symlink, Entry,
    Metadata, Visit,
};

fn entry(name: &str, metadata: Metadata, is_dir: Option<bool>) -> Entry {
    Entry {
        name: name.to_string(),
        path: format!("/root/{}", name),
        metadata,
        is_dir,
    }
}

fn strings(list: &[&str]) -> Vec<String> {
    list.iter().map(|s| s.to_string()).collect()
}

fn options(list: &[CmdOption]) -> CmdOptions {
    CmdOptions {
        options: list.to_vec(),
    }
}

#[test]
fn find_pattern_gives_the_lowest_offset() {
    assert_eq!(find_pattern("abcabc", "abc", true), Some(0));
    assert_eq!(find_pattern("xAbcabc", "abc", true), Some(4));
    assert_eq!(find_pattern("xAbcabc", "abc", false), Some(1));
    assert_eq!(find_pattern("aab", "ab", true), Some(1));
    assert_eq!(find_pattern("ab", "abc", false), None);
    assert_eq!(find_pattern("", "", true), Some(0));
    assert_eq!(find_pattern("x", "", false), Some(0));
    assert!(contains_pattern("Needle", "needle", false));
    assert!(!contains_pattern("Needle", "needle", true));
}

#[test]
fn folding_touches_letters_only() {
    assert_eq!(find_pattern("@[`{", "`{", false), Some(2));
    assert_eq!(find_pattern("@[", "`{", false), None);
    assert_eq!(find_pattern("AZaz", "zA", false), Some(1));
}

#[test]
fn boundaries_move_to_whole_characters() {
    let s = "aé\u{1f600}b";
    let floors: Vec<usize> = (0..10).map(|i| floor_char_boundary(s, i)).collect();
    assert_eq!(floors, vec![0, 1, 1, 3, 3, 3, 3, 7, 8, 8]);
    let ceils: Vec<usize> = (0..10).map(|i| ceil_char_boundary(s, i)).collect();
    assert_eq!(ceils, vec![0, 1, 3, 3, 7, 7, 7, 7, 8, 8]);
}

#[test]
fn decodes_utf16_pairs_and_repairs_lone_surrogates() {
    assert_eq!(decode_utf16(&[0x00, 0x41, 0xD8, 0x3D, 0xDE, 0x00], true), "A\u{1f600}");
    assert_eq!(decode_utf16(&[0x41, 0x00, 0x3D, 0xD8, 0x00, 0xDE], false), "A\u{1f600}");
    assert_eq!(decode_utf16(&[0xD8, 0x3D, 0x00, 0x41], true), "\u{fffd}A");
    assert_eq!(decode_utf16(&[0xDE, 0x00, 0x00, 0x41], true), "\u{fffd}A");
    assert_eq!(decode_utf16(&[0xD8, 0x3D], true), "\u{fffd}");
    assert_eq!(decode_utf16(&[0xD8, 0x3D, 0xD8, 0x3D, 0xDE, 0x00], true), "\u{fffd}\u{1f600}");
    assert_eq!(decode_utf16(&[0x00, 0x41, 0x00], true), "A");
    assert_eq!(decode_utf16(&[], true), "");
}

#[test]
fn decodes_utf32_and_repairs_what_is_no_character() {
    assert_eq!(decode_utf32(&[0x00, 0x01, 0xF6, 0x00, 0, 0, 0, 0x41], true), "\u{1f600}A");
    assert_eq!(decode_utf32(&[0x00, 0xF6, 0x01, 0x00, 0x41, 0, 0, 0], false), "\u{1f600}A");
    assert_eq!(decode_utf32(&[0x00, 0x00, 0xD8, 0x00], true), "\u{fffd}");
    assert_eq!(decode_utf32(&[0x00, 0x11, 0x00, 0x00], true), "\u{fffd}");
    assert_eq!(decode_utf32(&[0xFF, 0xFF, 0xFF, 0xFF, 0x41], true), "\u{fffd}");
}

#[test]
fn decodes_content_behind_its_mark() {
    assert_eq!(Encoding::Utf8Bom.bom_len(), 3);
    assert_eq!(Encoding::Utf16Le.bom_len(), 2);
    assert_eq!(Encoding::Utf32Be.bom_len(), 4);
    assert_eq!(Encoding::Unmarked.bom_len(), 0);
    assert_eq!(
        decode_content(Encoding::Utf8Bom, b"\xef\xbb\xbfh\xc3\xa9"),
        Some("h\u{e9}".to_string())
    );
    assert_eq!(
        decode_content(Encoding::Utf8Bom, b"\xef\xbb\xbfa\xc3"),
        Some("a\u{fffd}".to_string())
    );
    assert_eq!(
        decode_content(Encoding::Utf16Le, &[0xFF, 0xFE, 0x41, 0x00]),
        Some("A".to_string())
    );
    assert_eq!(decode_content(Encoding::Utf16Le, &[0xFF]), None);
}

#[test]
fn parts_are_matches_and_what_lies_between() {
    let parts: Vec<(bool, &str)> = split_matches("xAByabab", "ab", false)
        .iter()
        .map(|p| (p.hit, p.text))
        .collect();
    assert_eq!(
        parts,
        vec![(false, "x"), (true, "AB"), (false, "y"), (true, "ab"), (true, "ab")]
    );
    assert!(split_matches("", "ab", false).is_empty());
    let overlap: Vec<(bool, &str)> = split_matches("aaa", "aa", true)
        .iter()
        .map(|p| (p.hit, p.text))
        .collect();
    assert_eq!(overlap, vec![(true, "aa"), (false, "a")]);
    let whole: String = split_matches("caf\u{e9} CAF\u{e9}", "f\u{e9}", false)
        .iter()
        .map(|p| p.text)
        .collect();
    assert_eq!(whole, "caf\u{e9} CAF\u{e9}");
}

#[test]
fn pieces_are_joined_in_order() {
    assert_eq!(join(&strings(&["a", "", "bc"])), "abc");
    assert_eq!(join(&Vec::new()), "");
}

#[test]
fn highlighting_without_colours_keeps_the_text() {
    colored::control::set_override(false);
    assert_eq!(highlight_all("/a/needle/b", "NEEDLE", Color::Cyan, false), "/a/needle/b");
}

#[test]
fn window_keeps_twenty_characters_on_each_side() {
    let line = format!("{}needle{}", "a".repeat(30), "b".repeat(30));
    assert_eq!(
        context_window(&line, "needle", true),
        Some(Window { from: 10, pos: 30, end: 36, to: 56 })
    );
    let wide = format!("{}needle{}", "\u{20ac}".repeat(10), "\u{20ac}".repeat(10));
    assert_eq!(
        context_window(&wide, "needle", true),
        Some(Window { from: 0, pos: 30, end: 36, to: 66 })
    );
    let wider = format!("{}needle{}", "\u{20ac}".repeat(25), "\u{20ac}".repeat(25));
    assert_eq!(
        context_window(&wider, "needle", true),
        Some(Window { from: 15, pos: 75, end: 81, to: 141 })
    );
    let mixed = format!("xx{}needle{}\u{1f600}y", "\u{e9}".repeat(20), "b".repeat(19));
    assert_eq!(
        context_window(&mixed, "needle", true),
        Some(Window { from: 2, pos: 42, end: 48, to: 71 })
    );
    assert_eq!(
        context_window("short needle", "needle", true),
        Some(Window { from: 0, pos: 6, end: 12, to: 12 })
    );
    assert_eq!(context_window("nothing", "needle", true), None);
}

#[test]
fn hit_is_put_together_from_its_parts() {
    let window = Window { from: 2, pos: 3, end: 4, to: 5 };
    assert_eq!(format_hit("P", "7", "abcdef", window, "<d>"), "P:7: ...c<d>e...");
    let window = Window { from: 0, pos: 3, end: 4, to: 6 };
    assert_eq!(format_hit("P", "7", "abcdef", window, "d"), "P:7: abcdef");
}

#[test]
fn long_lines_are_cut_with_dots() {
    colored::control::set_override(false);
    let line = format!("{}needle{}", "a".repeat(21), "b".repeat(21));
    assert_eq!(
        process_line("p", "needle", 12, &line, true),
        Some(format!("p:12: ...{}needle{}...", "a".repeat(20), "b".repeat(20)))
    );
    let line = format!("{}needle{}", "a".repeat(20), "b".repeat(20));
    assert_eq!(process_line("p", "needle", 1, &line, true), Some(format!("p:1: {}", line)));
    assert_eq!(process_line("p", "needle", 1, "Needle", true), None);
}

#[test]
fn context_is_counted_in_characters() {
    colored::control::set_override(false);
    let line = format!("{}x", "\u{e9}".repeat(12));
    assert_eq!(process_line("f", "x", 1, &line, true), Some(format!("f:1: {}", line)));
    let line = format!("{}x{}", "\u{e9}".repeat(21), "\u{1f600}".repeat(20));
    assert_eq!(
        process_line("f", "x", 1, &line, true),
        Some(format!("f:1: ...{}x{}", "\u{e9}".repeat(20), "\u{1f600}".repeat(20)))
    );
    let line = format!("{}x{}", "\u{e9}".repeat(20), "\u{1f600}".repeat(21));
    assert_eq!(
        process_line("f", "x", 1, &line, true),
        Some(format!("f:1: {}x{}...", "\u{e9}".repeat(20), "\u{1f600}".repeat(20)))
    );
}

#[test]
fn lines_end_with_feeds() {
    assert_eq!(split_lines("a\nb\r\n\nc\rd\r"), strings(&["a", "b", "", "c\rd\r"]));
    assert_eq!(split_lines("a\r\r\n"), strings(&["a\r"]));
    assert!(split_lines("").is_empty());
    assert_eq!(split_lines("\n"), strings(&[""]));
    assert_eq!(trim_line_end("a\r\n\r\r\n"), "a");
    assert_eq!(trim_line_end("\r\n"), "");
    assert_eq!(trim_line_end("\na b"), "\na b");
}

#[test]
fn text_helpers() {
    assert_eq!(decimal_text(0), "0");
    assert_eq!(decimal_text(10), "10");
    assert_eq!(decimal_text(u64::MAX), "18446744073709551615");
    assert!(same_text("h\u{e9}", "h\u{e9}"));
    assert!(!same_text("he", "h\u{e9}"));
    assert!(!same_text("ab", "ac"));
    assert_eq!(slice("h\u{e9}llo", 1, 3), "\u{e9}");
}

#[test]
fn first_argument_is_the_keyword() {
    assert!(handle_args(&strings(&[])).is_none());
    assert!(handle_args(&strings(&["trawl"])).is_none());
    let (pattern, options) = handle_args(&strings(&["trawl", "word", "-c", "x", "--all"])).unwrap();
    assert_eq!(pattern, "word");
    assert_eq!(options.options, vec![CmdOption::CaseSensitive, CmdOption::All]);
    let (pattern, options) = handle_args(&strings(&["trawl", "-c"])).unwrap();
    assert_eq!(pattern, "-c");
    assert!(options.options.is_empty());
    assert!(!options.has(CmdOption::CaseSensitive));
    let (pattern, options) = handle_args(&strings(&["trawl", "-h", "-h"])).unwrap();
    assert_eq!(pattern, "-h");
    assert_eq!(options.options, vec![CmdOption::Hidden]);
    let (_, options) = handle_args(&strings(&["-c", "word"])).unwrap();
    assert!(!options.has(CmdOption::CaseSensitive));
}

#[test]
fn every_option_has_two_names() {
    assert_eq!(parse_option("-h"), Some(CmdOption::Hidden));
    assert_eq!(parse_option("--hidden"), Some(CmdOption::Hidden));
    assert_eq!(parse_option("-e"), Some(CmdOption::Excluded));
    assert_eq!(parse_option("--excluded"), Some(CmdOption::Excluded));
    assert_eq!(parse_option("-a"), Some(CmdOption::All));
    assert_eq!(parse_option("--all"), Some(CmdOption::All));
    assert_eq!(parse_option("-c"), Some(CmdOption::CaseSensitive));
    assert_eq!(parse_option("--case-sensitive"), Some(CmdOption::CaseSensitive));
    assert_eq!(parse_option("-x"), None);
    assert_eq!(parse_option("-H"), None);
}

#[test]
fn all_is_short_for_hidden_and_excluded() {
    let short = options(&[CmdOption::All]);
    let long = options(&[CmdOption::Hidden, CmdOption::Excluded]);
    for option in [CmdOption::Hidden, CmdOption::Excluded, CmdOption::CaseSensitive] {
        assert_eq!(short.has(option), long.has(option));
    }
    assert!(short.has(CmdOption::All));
    assert!(!long.has(CmdOption::All));
    assert!(!options(&[CmdOption::Hidden]).has(CmdOption::Excluded));
}

#[test]
fn entries_are_judged_by_name_and_metadata() {
    assert!(is_hidden(&entry(".git", Metadata::Unknown, None)));
    assert!(!is_hidden(&entry("git", Metadata::Other(false), None)));
    assert!(!is_hidden(&entry("", Metadata::Unknown, None)));
    assert!(is_hidden(&entry("git", Metadata::Windows(0x22), None)));
    assert!(is_symlink(&entry("a", Metadata::Other(true), None)));
    assert!(is_symlink(&entry("a", Metadata::Windows(0x410), None)));
    assert!(!is_symlink(&entry("a", Metadata::Windows(0x10), None)));
    assert!(!is_symlink(&entry("a", Metadata::Unknown, None)));
    assert!(is_cloud_placeholder(&entry("a", Metadata::Windows(0x400000), None)));
    assert!(is_cloud_placeholder(&entry("a", Metadata::Windows(0x40000), None)));
    assert!(is_cloud_placeholder(&entry("a", Metadata::Windows(0x1000), None)));
    assert!(!is_cloud_placeholder(&entry("a", Metadata::Windows(0x20), None)));
    assert!(!is_cloud_placeholder(&entry("a", Metadata::Other(false), None)));
    for name in [
        "target", "node_modules", "dist", "build", "out", "bin", "obj", "vendor", "__pycache__",
        "venv", "env",
    ] {
        assert!(is_excluded_dir(&entry(name, Metadata::Unknown, Some(true))));
        assert!(!is_excluded_dir(&entry(name, Metadata::Unknown, Some(false))));
        assert!(!is_excluded_dir(&entry(name, Metadata::Unknown, None)));
    }
    assert!(!is_excluded_dir(&entry("Target", Metadata::Unknown, Some(true))));
}

#[test]
fn options_decide_which_entries_are_entered() {
    colored::control::set_override(false);
    let none = options(&[]);
    let all = options(&[CmdOption::All]);
    let link = entry("link", Metadata::Other(true), None);
    let dotted = entry(".needle", Metadata::Other(false), Some(false));
    let target = entry("target", Metadata::Other(false), Some(true));
    let cloud = entry("cloud", Metadata::Windows(0x1000), Some(false));
    assert!(matches!(handle_entry(&link, "needle", &all), Visit::Skip));
    assert!(matches!(handle_entry(&dotted, "needle", &none), Visit::Skip));
    assert!(matches!(handle_entry(&target, "needle", &none), Visit::Skip));
    assert!(matches!(handle_entry(&cloud, "needle", &none), Visit::Skip));
    assert!(matches!(handle_entry(&target, "needle", &all), Visit::Enter(None)));
    assert!(matches!(handle_entry(&cloud, "needle", &all), Visit::Enter(None)));
    match handle_entry(&dotted, "NEEDLE", &all) {
        Visit::Enter(Some(path)) => assert_eq!(path, "/root/.needle"),
        other => panic!("unexpected visit: {:?}", other),
    }
    let strict = options(&[CmdOption::Hidden, CmdOption::CaseSensitive]);
    assert!(matches!(handle_entry(&dotted, "NEEDLE", &strict), Visit::Enter(None)));
    assert!(is_skipped(&link, &all));
    assert!(is_skipped(&dotted, &none));
    assert!(!is_skipped(&dotted, &strict));
    assert!(is_skipped(&cloud, &strict));
    assert!(!is_skipped(&cloud, &all));
    assert!(matches!(handle_entry(&link, "", &all), Visit::Skip));
}

#[test]
fn durations_in_words() {
    assert_eq!(format_duration(60, 0), "1m 0s");
    assert_eq!(format_duration(3725, 999_999_999), "62m 5s");
    assert_eq!(format_duration(59, 0), "59s");
    assert_eq!(format_duration(1, 500_000_000), "1.5s");
    assert_eq!(format_duration(0, 1_500_000), "1.5ms");
    assert_eq!(format_duration(0, 7), "7ns");
}

#[test]
fn waiting_ends_with_the_last_job() {
    let mut jobs = PendingJobs::new();
    assert!(jobs.is_idle());
    jobs.start();
    jobs.start();
    assert_eq!(jobs.outstanding(), 2);
    assert!(!jobs.finish());
    jobs.start();
    assert!(!jobs.finish());
    assert!(!jobs.is_idle());
    assert!(jobs.finish());
    assert!(jobs.is_idle());
}
