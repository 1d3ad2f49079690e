use trawl::highlight::highlight_all;
use trawl::hit::process_line;
use trawl::options::CmdOptions;
use trawl::paint::Color;
use trawl::search::search_file;
use trawl::walk::{handle_entry, Entry, Metadata, Visit};

#[test]
fn matches_are_bold_red_between_the_base_colour() {
    colored::control::set_override(true);
    assert_eq!(
        highlight_all("a/Needle/b", "needle", Color::Cyan, false),
        "\u{1b}[36ma/\u{1b}[0m\u{1b}[1;31mNeedle\u{1b}[0m\u{1b}[36m/b\u{1b}[0m"
    );
    assert_eq!(
        highlight_all("x", "needle", Color::BrightBlue, false),
        "\u{1b}[94mx\u{1b}[0m"
    );
    assert_eq!(highlight_all("", "needle", Color::Cyan, false), "");
}

#[test]
fn inner_resets_reopen_the_style() {
    colored::control::set_override(true);
    assert_eq!(
        highlight_all("a\u{1b}[0mb", "needle", Color::Cyan, false),
        "\u{1b}[36ma\u{1b}[0m\u{1b}[36mb\u{1b}[0m"
    );
}

#[test]
fn report_colours_path_number_and_match() {
    colored::control::set_override(true);
    assert_eq!(
        process_line("p", "needle", 3, "a needle b", true),
        Some(
            "\u{1b}[94mp\u{1b}[0m:\u{1b}[33m3\u{1b}[0m: a \u{1b}[1;31mneedle\u{1b}[0m b"
                .to_string()
        )
    );
}

#[test]
fn printed_path_shows_the_match_in_the_name() {
    colored::control::set_override(true);
    let entry = Entry {
        name: "Needle.txt".to_string(),
        path: "d/Needle.txt".to_string(),
        metadata: Metadata::Other(false),
        is_dir: Some(false),
    };
    let options = CmdOptions {
        options: Vec::new(),
    };
    match handle_entry(&entry, "needle", &options) {
        Visit::Enter(Some(path)) => assert_eq!(
            path,
            "\u{1b}[36md/\u{1b}[0m\u{1b}[1;31mNeedle\u{1b}[0m\u{1b}[36m.txt\u{1b}[0m"
        ),
        other => panic!("unexpected visit: {:?}", other),
    }
}

#[test]
fn report_highlights_the_keyword_in_the_path() {
    colored::control::set_override(true);
    assert_eq!(
        process_line("needle", "needle", 1, "needle", true),
        Some(
            "\u{1b}[1;31mneedle\u{1b}[0m:\u{1b}[33m1\u{1b}[0m: \u{1b}[1;31mneedle\u{1b}[0m"
                .to_string()
        )
    );
}

#[test]
fn same_coloured_messages_in_every_encoding() {
    colored::control::set_override(true);
    let plain = "omega\nneedle \u{e9}\n";
    let mut marked = vec![0xef, 0xbb, 0xbf];
    marked.extend_from_slice(plain.as_bytes());
    let mut utf16 = vec![0xfe, 0xff];
    let mut utf32 = vec![0xff, 0xfe, 0x00, 0x00];
    for c in plain.chars() {
        utf16.extend_from_slice(&(c as u32 as u16).to_be_bytes());
        utf32.extend_from_slice(&(c as u32).to_le_bytes());
    }
    let expected = vec![
        "\u{1b}[94mf\u{1b}[0m:\u{1b}[33m2\u{1b}[0m: \u{1b}[1;31mneedle\u{1b}[0m \u{e9}".to_string(),
    ];
    for content in [plain.as_bytes().to_vec(), marked, utf16, utf32] {
        assert_eq!(search_file("f", "needle", &content, &content, true), expected);
    }
}
