//! Reporting the first match of a line with its place and its context.

use crate::highlight;
use crate::highlight::highlight_all;
use crate::matching;
use crate::matching::{ceil_char_boundary, find_pattern, floor_char_boundary};
use crate::paint;
use crate::paint::{paint, paint_match, Color, Switch};
use crate::text;
use vstd::prelude::*;
use vstd::string::*;
use vstd::utf8::*;

verus! {

/// How many characters of a line are shown before a match, and how many behind it.
pub const CONTEXT: usize = 20;

/// Byte offsets in a line: the shown part runs from `from` to `to`, the match in it from `pos` to
/// `end`.
#[derive(Debug, PartialEq, Eq, Clone, Copy, Structural)]
pub struct Window {
    pub from: usize,
    pub pos: usize,
    pub end: usize,
    pub to: usize,
}

impl Window {
    /// Whether the offsets are character boundaries of a line, in order.
    pub open spec fn fits(self, line: Seq<u8>) -> bool {
        &&& self.from <= self.pos <= self.end <= self.to <= line.len()
        &&& is_char_boundary(line, self.from as int)
        &&& is_char_boundary(line, self.pos as int)
        &&& is_char_boundary(line, self.end as int)
        &&& is_char_boundary(line, self.to as int)
    }
}

/// How many of `available` characters are shown as context.
pub open spec fn context_chars(available: nat) -> nat {
    if available < CONTEXT {
        available
    } else {
        CONTEXT as nat
    }
}

/// Whether a window shows the first match of a line with its context: the characters next to the
/// match on each side, as many as `CONTEXT` or as the line has.
pub open spec fn is_window(line: Seq<u8>, pat: Seq<u8>, case_sensitive: bool, w: Window) -> bool {
    &&& w.fits(line)
    &&& matching::first_match(line, pat, case_sensitive) == Some(w.pos as int)
    &&& w.end == w.pos + pat.len()
    &&& decode_utf8(line.subrange(w.from as int, w.pos as int)).len() == context_chars(
        decode_utf8(line.take(w.pos as int)).len(),
    )
    &&& decode_utf8(line.subrange(w.end as int, w.to as int)).len() == context_chars(
        decode_utf8(line.skip(w.end as int)).len(),
    )
}

proof fn lemma_stretch(line: Seq<u8>, a: int, b: int, c: int)
    requires
        valid_utf8(line),
        0 <= a <= b <= c <= line.len(),
        is_char_boundary(line, a),
        is_char_boundary(line, b),
        is_char_boundary(line, c),
    ensures
        valid_utf8(line.subrange(a, c)),
        decode_utf8(line.subrange(a, c)) == decode_utf8(line.subrange(a, b)) + decode_utf8(
            line.subrange(b, c),
        ),
{
    let head = line.subrange(0, c);
    matching::lemma_boundary_prefix(line, a, c);
    matching::lemma_boundary_prefix(line, b, c);
    matching::lemma_boundary_shift(head, a, b - a);
    let part = head.subrange(a, head.len() as int);
    assert(part =~= line.subrange(a, c));
    decode_utf8_split(part, b - a);
    assert(part.subrange(0, b - a) =~= line.subrange(a, b));
    assert(part.subrange(b - a, part.len() as int) =~= line.subrange(b, c));
}

proof fn lemma_some_char(line: Seq<u8>, a: int, b: int)
    requires
        valid_utf8(line),
        0 <= a < b <= line.len(),
        is_char_boundary(line, a),
        is_char_boundary(line, b),
    ensures
        decode_utf8(line.subrange(a, b)).len() >= 1,
{
    lemma_stretch(line, a, b, b);
}

/// Between two neighbouring character boundaries stands one character.
proof fn lemma_one_char(line: Seq<u8>, a: int, b: int)
    requires
        valid_utf8(line),
        0 <= a < b <= line.len(),
        is_char_boundary(line, a),
        is_char_boundary(line, b),
        forall|j: int| a < j < b ==> !#[trigger] is_char_boundary(line, j),
    ensures
        decode_utf8(line.subrange(a, b)).len() == 1,
{
    let rest = line.subrange(a, line.len() as int);
    matching::lemma_boundary_shift(line, a, b - a);
    let n = length_of_first_scalar(rest);
    assert(is_char_boundary(pop_first_scalar(rest), 0));
    assert(is_char_boundary(rest, n));
    matching::lemma_boundary_shift(line, a, n);
    assert(b - a >= n) by {
        reveal_with_fuel(is_char_boundary, 2);
    }
    let part = line.subrange(a, b);
    lemma_stretch(line, a, b, b);
    assert(length_of_first_scalar(part) == n);
    assert(pop_first_scalar(part) =~= Seq::<u8>::empty());
    reveal_with_fuel(decode_utf8, 2);
}

/// The offset of the context before a match.
fn context_start(line: &str, pos: usize) -> (from: usize)
    requires
        pos <= line.spec_bytes().len(),
        is_char_boundary(line.spec_bytes(), pos as int),
    ensures
        from <= pos,
        is_char_boundary(line.spec_bytes(), from as int),
        decode_utf8(line.spec_bytes().subrange(from as int, pos as int)).len() == context_chars(
            decode_utf8(line.spec_bytes().take(pos as int)).len(),
        ),
{
    let ghost bytes = line.spec_bytes();
    proof {
        encode_utf8_valid_utf8(line@);
        is_char_boundary_start_end_of_seq(bytes);
        assert(bytes.subrange(pos as int, pos as int) =~= Seq::<u8>::empty());
    }
    let mut from: usize = pos;
    let mut shown: usize = 0;
    while from > 0 && shown < CONTEXT
        invariant
            bytes == line.spec_bytes(),
            valid_utf8(bytes),
            from <= pos <= bytes.len(),
            is_char_boundary(bytes, from as int),
            is_char_boundary(bytes, pos as int),
            shown <= CONTEXT,
            decode_utf8(bytes.subrange(from as int, pos as int)).len() == shown,
        decreases from,
    {
        let next: usize = floor_char_boundary(line, from - 1);
        proof {
            lemma_one_char(bytes, next as int, from as int);
            lemma_stretch(bytes, next as int, from as int, pos as int);
        }
        from = next;
        shown = shown + 1;
    }
    proof {
        lemma_stretch(bytes, 0, from as int, pos as int);
        assert(bytes.take(pos as int) =~= bytes.subrange(0, pos as int));
        if from == 0 {
            assert(bytes.subrange(0, 0) =~= Seq::<u8>::empty());
        }
    }
    from
}

/// The offset at which the context behind a match ends.
fn context_end(line: &str, end: usize) -> (to: usize)
    requires
        end <= line.spec_bytes().len(),
        is_char_boundary(line.spec_bytes(), end as int),
    ensures
        end <= to <= line.spec_bytes().len(),
        is_char_boundary(line.spec_bytes(), to as int),
        decode_utf8(line.spec_bytes().subrange(end as int, to as int)).len() == context_chars(
            decode_utf8(line.spec_bytes().skip(end as int)).len(),
        ),
{
    let ghost bytes = line.spec_bytes();
    let len: usize = line.as_bytes().len();
    proof {
        encode_utf8_valid_utf8(line@);
        is_char_boundary_start_end_of_seq(bytes);
        assert(bytes.subrange(end as int, end as int) =~= Seq::<u8>::empty());
    }
    let mut to: usize = end;
    let mut shown: usize = 0;
    while to < len && shown < CONTEXT
        invariant
            bytes == line.spec_bytes(),
            valid_utf8(bytes),
            len == bytes.len(),
            end <= to <= len,
            is_char_boundary(bytes, end as int),
            is_char_boundary(bytes, to as int),
            shown <= CONTEXT,
            decode_utf8(bytes.subrange(end as int, to as int)).len() == shown,
        decreases len - to,
    {
        let next: usize = ceil_char_boundary(line, to + 1);
        proof {
            lemma_one_char(bytes, to as int, next as int);
            lemma_stretch(bytes, end as int, to as int, next as int);
        }
        to = next;
        shown = shown + 1;
    }
    proof {
        lemma_stretch(bytes, end as int, to as int, len as int);
        assert(bytes.skip(end as int) =~= bytes.subrange(end as int, len as int));
        if to == len {
            assert(bytes.subrange(len as int, len as int) =~= Seq::<u8>::empty());
        }
    }
    to
}

/// The first match of a line with its context, if there is a match.
pub fn context_window(line: &str, pattern: &str, case_sensitive: bool) -> (r: Option<Window>)
    ensures
        r is None <==> matching::first_match(
            line.spec_bytes(),
            pattern.spec_bytes(),
            case_sensitive,
        ) is None,
        r matches Some(w) ==> is_window(
            line.spec_bytes(),
            pattern.spec_bytes(),
            case_sensitive,
            w,
        ),
{
    let ghost bytes = line.spec_bytes();
    let ghost pat = pattern.spec_bytes();
    let width: usize = pattern.as_bytes().len();
    let len: usize = line.as_bytes().len();
    assert(len == bytes.len());
    match find_pattern(line, pattern, case_sensitive) {
        Some(pos) => {
            let end: usize = pos + width;
            proof {
                encode_utf8_valid_utf8(line@);
                encode_utf8_valid_utf8(pattern@);
                is_char_boundary_start_end_of_seq(bytes);
                if width > 0 {
                    matching::lemma_match_on_boundaries(bytes, pat, case_sensitive, pos as int);
                } else {
                    assert(matching::matches_at(bytes, pat, case_sensitive, 0));
                }
            }
            let from: usize = context_start(line, pos);
            let to: usize = context_end(line, end);
            Some(Window { from, pos, end, to })
        },
        None => None,
    }
}

/// The shown part of a line holds the match and a little context: on neither side more than
/// `CONTEXT` characters, and on each side all of the line where it has no more than that, so that
/// dots stand exactly where characters are left out.
pub proof fn lemma_window_bounds(line: Seq<u8>, pat: Seq<u8>, case_sensitive: bool, w: Window)
    requires
        valid_utf8(line),
        is_window(line, pat, case_sensitive, w),
    ensures
        decode_utf8(line.subrange(w.from as int, w.pos as int)).len() <= CONTEXT,
        decode_utf8(line.subrange(w.end as int, w.to as int)).len() <= CONTEXT,
        w.from == 0 <==> decode_utf8(line.take(w.pos as int)).len() <= CONTEXT,
        w.to == line.len() <==> decode_utf8(line.skip(w.end as int)).len() <= CONTEXT,
        decode_utf8(line.take(w.pos as int)).len() >= 20 ==> decode_utf8(
            line.subrange(w.from as int, w.pos as int),
        ).len() == 20,
        decode_utf8(line.skip(w.end as int)).len() >= 20 ==> decode_utf8(
            line.subrange(w.end as int, w.to as int),
        ).len() == 20,
        decode_utf8(line.take(w.pos as int)).len() <= 20 ==> w.from == 0,
        decode_utf8(line.skip(w.end as int)).len() <= 20 ==> w.to == line.len(),
        matching::first_match(line, pat, case_sensitive) == Some(w.pos as int),
        w.end == w.pos + pat.len(),
{
    let len = line.len() as int;
    is_char_boundary_start_end_of_seq(line);
    assert(line.take(w.pos as int) =~= line.subrange(0, w.pos as int));
    assert(line.skip(w.end as int) =~= line.subrange(w.end as int, len));
    lemma_stretch(line, 0, w.from as int, w.pos as int);
    lemma_stretch(line, w.end as int, w.to as int, len);
    if w.from > 0 {
        lemma_some_char(line, 0, w.from as int);
    }
    if w.to < len {
        lemma_some_char(line, w.to as int, len);
    }
}

/// A line has one window for its first match.
pub proof fn lemma_window_unique(
    line: Seq<u8>,
    pat: Seq<u8>,
    case_sensitive: bool,
    v: Window,
    w: Window,
)
    requires
        valid_utf8(line),
        is_window(line, pat, case_sensitive, v),
        is_window(line, pat, case_sensitive, w),
    ensures
        v == w,
{
    if v.from < w.from {
        lemma_stretch(line, v.from as int, w.from as int, w.pos as int);
        lemma_some_char(line, v.from as int, w.from as int);
    } else if w.from < v.from {
        lemma_stretch(line, w.from as int, v.from as int, w.pos as int);
        lemma_some_char(line, w.from as int, v.from as int);
    }
    if v.to < w.to {
        lemma_stretch(line, w.end as int, v.to as int, w.to as int);
        lemma_some_char(line, v.to as int, w.to as int);
    } else if w.to < v.to {
        lemma_stretch(line, w.end as int, w.to as int, v.to as int);
        lemma_some_char(line, w.to as int, v.to as int);
    }
}

/// What is shown of a line is a stretch of it: what stands before the match, the match and what
/// stands behind it, put together, are the line from one end of the window to the other.
pub proof fn lemma_window_contiguous(line: Seq<u8>, w: Window)
    requires
        valid_utf8(line),
        w.fits(line),
    ensures
        decode_utf8(line.subrange(w.from as int, w.pos as int)) + decode_utf8(
            line.subrange(w.pos as int, w.end as int),
        ) + decode_utf8(line.subrange(w.end as int, w.to as int)) == decode_utf8(
            line.subrange(w.from as int, w.to as int),
        ),
{
    let (a, b, c, d) = (w.from as int, w.pos as int, w.end as int, w.to as int);
    lemma_stretch(line, a, b, d);
    lemma_stretch(line, b, c, d);
}

/// What stands at an end of the shown part: three dots where the line goes on.
pub open spec fn ellipsis(cut: bool) -> Seq<char> {
    if cut {
        seq!['.', '.', '.']
    } else {
        seq![]
    }
}

/// The report of a match: the path, the line number, and the shown part of the line with the match
/// in it. `path`, `number` and `matched` come as they are to be printed.
pub open spec fn hit_text(
    path: Seq<char>,
    number: Seq<char>,
    line: Seq<u8>,
    w: Window,
    matched: Seq<char>,
) -> Seq<char> {
    path + seq![':'] + number + seq![':', ' '] + ellipsis(w.from > 0) + decode_utf8(
        line.subrange(w.from as int, w.pos as int),
    ) + matched + decode_utf8(line.subrange(w.end as int, w.to as int)) + ellipsis(
        w.to < line.len(),
    )
}

/// Puts the report of a match together.
pub fn format_hit(path: &str, number: &str, line: &str, w: Window, matched: &str) -> (r: String)
    requires
        w.fits(line.spec_bytes()),
    ensures
        r@ == hit_text(path@, number@, line.spec_bytes(), w, matched@),
{
    proof {
        reveal_strlit(":");
        reveal_strlit(": ");
        reveal_strlit("...");
    }
    let len: usize = line.as_bytes().len();
    let mut out: String = String::new();
    out.append(path);
    out.append(":");
    out.append(number);
    out.append(": ");
    if w.from > 0 {
        out.append("...");
    }
    out.append(text::slice(line, w.from, w.pos));
    out.append(matched);
    out.append(text::slice(line, w.end, w.to));
    if w.to < len {
        out.append("...");
    }
    assert(out@ =~= hit_text(path@, number@, line.spec_bytes(), w, matched@));
    out
}

/// Whether the pieces of a report are those of the first match of a line: its window, the path in
/// bright blue but for the matches in it, the line number in yellow, and the match in the style of
/// a match.
pub open spec fn are_hit_pieces(
    path: Seq<char>,
    pattern: Seq<char>,
    line_no: nat,
    line: Seq<char>,
    case_sensitive: bool,
    switch: Switch,
    w: Window,
    shown_path: Seq<char>,
    number: Seq<char>,
    matched: Seq<char>,
) -> bool {
    &&& is_window(encode_utf8(line), encode_utf8(pattern), case_sensitive, w)
    &&& highlight::is_highlighting(
        encode_utf8(path),
        encode_utf8(pattern),
        Color::BrightBlue,
        case_sensitive,
        switch,
        shown_path,
    )
    &&& paint::is_painting(
        text::decimal(line_no),
        paint::color_code(Color::Yellow),
        switch,
        number,
    )
    &&& paint::is_painting(
        decode_utf8(encode_utf8(line).subrange(w.pos as int, w.end as int)),
        paint::match_code(),
        switch,
        matched,
    )
}

/// Whether `out` reports the first match of a line.
pub open spec fn is_hit(
    path: Seq<char>,
    pattern: Seq<char>,
    line_no: nat,
    line: Seq<char>,
    case_sensitive: bool,
    switch: Switch,
    out: Seq<char>,
) -> bool {
    exists|w: Window, shown_path: Seq<char>, number: Seq<char>, matched: Seq<char>|
        {
            &&& #[trigger] are_hit_pieces(
                path,
                pattern,
                line_no,
                line,
                case_sensitive,
                switch,
                w,
                shown_path,
                number,
                matched,
            )
            &&& out == hit_text(shown_path, number, encode_utf8(line), w, matched)
        }
}

/// The pieces of a report.
proof fn lemma_hit_pieces(
    path: Seq<char>,
    pattern: Seq<char>,
    line_no: nat,
    line: Seq<char>,
    case_sensitive: bool,
    switch: Switch,
    out: Seq<char>,
) -> (r: (Window, Seq<char>, Seq<char>, Seq<char>))
    requires
        is_hit(path, pattern, line_no, line, case_sensitive, switch, out),
    ensures
        are_hit_pieces(
            path,
            pattern,
            line_no,
            line,
            case_sensitive,
            switch,
            r.0,
            r.1,
            r.2,
            r.3,
        ),
        out == hit_text(r.1, r.2, encode_utf8(line), r.0, r.3),
{
    let (w, shown_path, number, matched) = choose|
        w: Window,
        shown_path: Seq<char>,
        number: Seq<char>,
        matched: Seq<char>,
    |
        {
            &&& #[trigger] are_hit_pieces(
                path,
                pattern,
                line_no,
                line,
                case_sensitive,
                switch,
                w,
                shown_path,
                number,
                matched,
            )
            &&& out == hit_text(shown_path, number, encode_utf8(line), w, matched)
        };
    (w, shown_path, number, matched)
}

/// With the switch on or off throughout, a match is reported in one way.
pub proof fn lemma_hit_unique(
    path: Seq<char>,
    pattern: Seq<char>,
    line_no: nat,
    line: Seq<char>,
    case_sensitive: bool,
    switch: Switch,
    a: Seq<char>,
    b: Seq<char>,
)
    requires
        !(switch is Turning),
        is_hit(path, pattern, line_no, line, case_sensitive, switch, a),
        is_hit(path, pattern, line_no, line, case_sensitive, switch, b),
    ensures
        a == b,
{
    let bytes = encode_utf8(line);
    let pat = encode_utf8(pattern);
    encode_utf8_valid_utf8(line);
    let (v, path_a, number_a, matched_a) = lemma_hit_pieces(
        path,
        pattern,
        line_no,
        line,
        case_sensitive,
        switch,
        a,
    );
    let (w, path_b, number_b, matched_b) = lemma_hit_pieces(
        path,
        pattern,
        line_no,
        line,
        case_sensitive,
        switch,
        b,
    );
    lemma_window_unique(bytes, pat, case_sensitive, v, w);
    highlight::lemma_highlighting_unique(
        encode_utf8(path),
        pat,
        Color::BrightBlue,
        case_sensitive,
        switch,
        path_a,
        path_b,
    );
}

/// What a steady switch makes of a report, a switch that may turn can make of it too.
pub proof fn lemma_steady_hit(
    path: Seq<char>,
    pattern: Seq<char>,
    line_no: nat,
    line: Seq<char>,
    case_sensitive: bool,
    switch: Switch,
    out: Seq<char>,
)
    requires
        is_hit(path, pattern, line_no, line, case_sensitive, switch, out),
    ensures
        is_hit(path, pattern, line_no, line, case_sensitive, Switch::Turning, out),
{
    let (w, shown_path, number, matched) = lemma_hit_pieces(
        path,
        pattern,
        line_no,
        line,
        case_sensitive,
        switch,
        out,
    );
    highlight::lemma_steady_highlighting(
        encode_utf8(path),
        encode_utf8(pattern),
        Color::BrightBlue,
        case_sensitive,
        switch,
        shown_path,
    );
    assert(are_hit_pieces(
        path,
        pattern,
        line_no,
        line,
        case_sensitive,
        Switch::Turning,
        w,
        shown_path,
        number,
        matched,
    ));
}

/// Without colours a report is the path, the line number, and a stretch of the line, with dots
/// where the line goes on.
pub proof fn lemma_bare_hit(
    path: Seq<char>,
    pattern: Seq<char>,
    line_no: nat,
    line: Seq<char>,
    case_sensitive: bool,
    w: Window,
    out: Seq<char>,
)
    requires
        pattern.len() > 0,
        is_window(encode_utf8(line), encode_utf8(pattern), case_sensitive, w),
    ensures
        is_hit(path, pattern, line_no, line, case_sensitive, Switch::Off, out) <==> out == path
            + seq![':'] + text::decimal(line_no) + seq![':', ' '] + (if w.from > 0 {
            seq!['.', '.', '.']
        } else {
            seq![]
        }) + decode_utf8(encode_utf8(line).subrange(w.from as int, w.to as int)) + (if w.to
            < encode_utf8(line).len() {
            seq!['.', '.', '.']
        } else {
            seq![]
        }),
{
    let bytes = encode_utf8(line);
    let number = text::decimal(line_no);
    let before = decode_utf8(bytes.subrange(w.from as int, w.pos as int));
    let matched = decode_utf8(bytes.subrange(w.pos as int, w.end as int));
    let behind = decode_utf8(bytes.subrange(w.end as int, w.to as int));
    let head = path + seq![':'] + number + seq![':', ' '] + ellipsis(w.from > 0);
    let tail = ellipsis(w.to < bytes.len());
    let bare = head + decode_utf8(bytes.subrange(w.from as int, w.to as int)) + tail;
    encode_utf8_valid_utf8(line);
    encode_utf8_valid_utf8(path);
    encode_utf8_valid_utf8(pattern);
    encode_utf8_first_scalar(pattern);
    encode_utf8_decode_utf8(path);
    highlight::lemma_bare_highlighting(
        encode_utf8(path),
        encode_utf8(pattern),
        Color::BrightBlue,
        case_sensitive,
        path,
    );
    lemma_window_contiguous(bytes, w);
    assert(head + before + matched + behind + tail =~= head + (before + matched + behind) + tail);
    assert(are_hit_pieces(
        path,
        pattern,
        line_no,
        line,
        case_sensitive,
        Switch::Off,
        w,
        path,
        number,
        matched,
    ));
    assert(is_hit(path, pattern, line_no, line, case_sensitive, Switch::Off, bare));
    if is_hit(path, pattern, line_no, line, case_sensitive, Switch::Off, out) {
        lemma_hit_unique(path, pattern, line_no, line, case_sensitive, Switch::Off, out, bare);
    }
}

/// With colours a report has the same pieces, each in its style: the path as it is highlighted in
/// bright blue, the line number in yellow, and the match bold and red.
pub proof fn lemma_coloured_hit(
    path: Seq<char>,
    pattern: Seq<char>,
    line_no: nat,
    line: Seq<char>,
    case_sensitive: bool,
    w: Window,
    shown_path: Seq<char>,
    out: Seq<char>,
)
    requires
        is_window(encode_utf8(line), encode_utf8(pattern), case_sensitive, w),
        highlight::is_highlighting(
            encode_utf8(path),
            encode_utf8(pattern),
            Color::BrightBlue,
            case_sensitive,
            Switch::On,
            shown_path,
        ),
    ensures
        is_hit(path, pattern, line_no, line, case_sensitive, Switch::On, out) <==> {
            let bytes = encode_utf8(line);
            let matched = decode_utf8(bytes.subrange(w.pos as int, w.end as int));
            let red = seq!['\u{1b}', '[', '1', ';', '3', '1', 'm'];
            let reset = seq!['\u{1b}', '[', '0', 'm'];
            out == shown_path + seq![':'] + (seq!['\u{1b}', '[', '3', '3', 'm'] + text::decimal(
                line_no,
            ) + reset) + seq![':', ' '] + (if w.from > 0 {
                seq!['.', '.', '.']
            } else {
                seq![]
            }) + decode_utf8(bytes.subrange(w.from as int, w.pos as int)) + (red + paint::reopened(
                matched,
                red,
            ) + reset) + decode_utf8(bytes.subrange(w.end as int, w.to as int)) + (if w.to
                < bytes.len() {
                seq!['.', '.', '.']
            } else {
                seq![]
            })
        },
{
    let bytes = encode_utf8(line);
    let matched = decode_utf8(bytes.subrange(w.pos as int, w.end as int));
    let red = seq!['\u{1b}', '[', '1', ';', '3', '1', 'm'];
    let reset = seq!['\u{1b}', '[', '0', 'm'];
    let number = text::decimal(line_no);
    let yellow = seq!['\u{1b}', '[', '3', '3', 'm'];
    text::lemma_decimal_reads_back(line_no);
    if number.contains('\u{1b}') {
        let i = choose|i: int| 0 <= i < number.len() && number[i] == '\u{1b}';
        assert('0' <= number[i] <= '9');
    }
    paint::lemma_nothing_reopened(number, yellow);
    let shown_number = yellow + number + reset;
    let shown_match = red + paint::reopened(matched, red) + reset;
    let whole = hit_text(shown_path, shown_number, bytes, w, shown_match);
    assert(are_hit_pieces(
        path,
        pattern,
        line_no,
        line,
        case_sensitive,
        Switch::On,
        w,
        shown_path,
        shown_number,
        shown_match,
    ));
    assert(is_hit(path, pattern, line_no, line, case_sensitive, Switch::On, whole));
    if is_hit(path, pattern, line_no, line, case_sensitive, Switch::On, out) {
        lemma_hit_unique(path, pattern, line_no, line, case_sensitive, Switch::On, out, whole);
    }
}

/// Whether a line holds a match.
pub open spec fn line_matches(
    line: Seq<char>,
    pattern: Seq<char>,
    case_sensitive: bool,
) -> bool {
    matching::first_match(encode_utf8(line), encode_utf8(pattern), case_sensitive) is Some
}

/// Reports the first match of a line, if there is one.
pub fn process_line(
    path: &str,
    pattern: &str,
    line_no: usize,
    line: &str,
    case_sensitive: bool,
) -> (r: Option<String>)
    requires
        pattern@.len() > 0,
    ensures
        r is Some <==> line_matches(line@, pattern@, case_sensitive),
        r matches Some(out) ==> is_hit(
            path@,
            pattern@,
            line_no as nat,
            line@,
            case_sensitive,
            paint::process_switch(),
            out@,
        ),
        r matches Some(out) ==> is_hit(
            path@,
            pattern@,
            line_no as nat,
            line@,
            case_sensitive,
            Switch::Turning,
            out@,
        ),
{
    match context_window(line, pattern, case_sensitive) {
        Some(w) => {
            let shown_path: String = highlight_all(
                path,
                pattern,
                Color::BrightBlue,
                case_sensitive,
            );
            let digits: String = text::decimal_text(line_no as u64);
            let number: String = paint(digits.as_str(), Color::Yellow);
            let matched: String = paint_match(text::slice(line, w.pos, w.end));
            let out: String = format_hit(
                shown_path.as_str(),
                number.as_str(),
                line,
                w,
                matched.as_str(),
            );
            assert(are_hit_pieces(
                path@,
                pattern@,
                line_no as nat,
                line@,
                case_sensitive,
                paint::process_switch(),
                w,
                shown_path@,
                number@,
                matched@,
            ));
            proof {
                lemma_steady_hit(
                    path@,
                    pattern@,
                    line_no as nat,
                    line@,
                    case_sensitive,
                    paint::process_switch(),
                    out@,
                );
            }
            Some(out)
        },
        None => None,
    }
}

/// A line holds a match exactly where the keyword occurs in it, at whatever place.
pub proof fn lemma_line_matches(line: Seq<char>, pattern: Seq<char>, case_sensitive: bool)
    ensures
        line_matches(line, pattern, case_sensitive) <==> exists|i: int|
            matching::matches_at(encode_utf8(line), encode_utf8(pattern), case_sensitive, i),
{
    matching::lemma_first_match_spec(encode_utf8(line), encode_utf8(pattern), case_sensitive);
}

} // verus!
