//! Searching the content of a file line by line and reporting each line that holds a match.

use crate::encoding;
use crate::encoding::{decode_content, detect_encoding, lossy_text, Encoding};
use crate::hit;
use crate::hit::process_line;
use crate::matching;
use crate::paint;
use crate::paint::Switch;
use crate::text;
use vstd::prelude::*;
use vstd::string::*;
use vstd::utf8::*;

verus! {

/// The offsets of the lines that hold a match, from the first line to the last.
pub open spec fn matching_lines(
    lines: Seq<Seq<char>>,
    pattern: Seq<char>,
    case_sensitive: bool,
) -> Seq<int>
    decreases lines.len(),
{
    if lines.len() == 0 {
        seq![]
    } else {
        let before = matching_lines(lines.drop_last(), pattern, case_sensitive);
        if hit::line_matches(lines.last(), pattern, case_sensitive) {
            before.push(lines.len() - 1)
        } else {
            before
        }
    }
}

/// Whether `out` reports the first match of each line that holds one, in the order of the lines,
/// counted from one.
pub open spec fn is_report(
    path: Seq<char>,
    pattern: Seq<char>,
    lines: Seq<Seq<char>>,
    case_sensitive: bool,
    switch: Switch,
    out: Seq<Seq<char>>,
) -> bool {
    let hits = matching_lines(lines, pattern, case_sensitive);
    &&& out.len() == hits.len()
    &&& forall|k: int|
        0 <= k < out.len() ==> hit::is_hit(
            path,
            pattern,
            (hits[k] + 1) as nat,
            lines[hits[k]],
            case_sensitive,
            switch,
            #[trigger] out[k],
        )
}

/// The matching lines are the lines with a match, each once and in order.
pub proof fn lemma_matching_lines(
    lines: Seq<Seq<char>>,
    pattern: Seq<char>,
    case_sensitive: bool,
)
    ensures
        ({
            let hits = matching_lines(lines, pattern, case_sensitive);
            &&& forall|k: int|
                0 <= k < hits.len() ==> 0 <= #[trigger] hits[k] < lines.len() && hit::line_matches(
                    lines[hits[k]],
                    pattern,
                    case_sensitive,
                )
            &&& forall|j: int, k: int| 0 <= j < k < hits.len() ==> hits[j] < hits[k]
            &&& forall|i: int|
                0 <= i < lines.len() && hit::line_matches(
                    #[trigger] lines[i],
                    pattern,
                    case_sensitive,
                ) ==> hits.contains(i)
        }),
    decreases lines.len(),
{
    if lines.len() > 0 {
        let init = lines.drop_last();
        let before = matching_lines(init, pattern, case_sensitive);
        let hits = matching_lines(lines, pattern, case_sensitive);
        lemma_matching_lines(init, pattern, case_sensitive);
        assert forall|k: int| 0 <= k < hits.len() implies 0 <= #[trigger] hits[k] < lines.len()
            && hit::line_matches(lines[hits[k]], pattern, case_sensitive) by {
            if k < before.len() {
                assert(hits[k] == before[k]);
                assert(init[before[k]] == lines[before[k]]);
            }
        }
        assert forall|j: int, k: int| 0 <= j < k < hits.len() implies hits[j] < hits[k] by {
            assert(hits[j] == before[j]);
            if k < before.len() {
                assert(hits[k] == before[k]);
            }
        }
        assert forall|i: int|
            0 <= i < lines.len() && hit::line_matches(
                #[trigger] lines[i],
                pattern,
                case_sensitive,
            ) implies hits.contains(i) by {
            if i < init.len() {
                assert(init[i] == lines[i]);
                let k = choose|k: int| 0 <= k < before.len() && before[k] == i;
                assert(hits[k] == i);
            } else {
                assert(hits[before.len() as int] == i);
            }
        }
    }
}

/// Searching line by line adds up to a search of all lines: one more line extends a report by its
/// own, if it holds a match, and by nothing otherwise.
pub proof fn lemma_report_push(
    path: Seq<char>,
    pattern: Seq<char>,
    lines: Seq<Seq<char>>,
    case_sensitive: bool,
    switch: Switch,
    out: Seq<Seq<char>>,
    line: Seq<char>,
    hit: Option<Seq<char>>,
)
    requires
        is_report(path, pattern, lines, case_sensitive, switch, out),
        hit is Some <==> hit::line_matches(line, pattern, case_sensitive),
        hit matches Some(h) ==> hit::is_hit(
            path,
            pattern,
            lines.len() + 1,
            line,
            case_sensitive,
            switch,
            h,
        ),
    ensures
        hit matches Some(h) ==> is_report(
            path,
            pattern,
            lines.push(line),
            case_sensitive,
            switch,
            out.push(h),
        ),
        hit is None ==> is_report(
            path,
            pattern,
            lines.push(line),
            case_sensitive,
            switch,
            out,
        ),
{
    let more = lines.push(line);
    let before = matching_lines(lines, pattern, case_sensitive);
    let hits = matching_lines(more, pattern, case_sensitive);
    assert(more.drop_last() =~= lines);
    lemma_matching_lines(lines, pattern, case_sensitive);
    let now = match hit {
        Some(h) => out.push(h),
        None => out,
    };
    assert forall|k: int| 0 <= k < now.len() implies hit::is_hit(
        path,
        pattern,
        (hits[k] + 1) as nat,
        more[hits[k]],
        case_sensitive,
        switch,
        #[trigger] now[k],
    ) by {
        if k < out.len() {
            assert(hits[k] == before[k]);
            assert(now[k] == out[k]);
            assert(more[before[k]] == lines[before[k]]);
        }
    }
}

/// With the switch on or off throughout, lines are reported in one way. In any case the same lines
/// have as many reports.
pub proof fn lemma_report_unique(
    path: Seq<char>,
    pattern: Seq<char>,
    lines: Seq<Seq<char>>,
    case_sensitive: bool,
    switch: Switch,
    a: Seq<Seq<char>>,
    b: Seq<Seq<char>>,
)
    requires
        is_report(path, pattern, lines, case_sensitive, switch, a),
        is_report(path, pattern, lines, case_sensitive, switch, b),
    ensures
        a.len() == b.len(),
        !(switch is Turning) ==> a == b,
{
    let hits = matching_lines(lines, pattern, case_sensitive);
    if !(switch is Turning) {
        assert forall|k: int| 0 <= k < a.len() implies a[k] == b[k] by {
            hit::lemma_hit_unique(
                path,
                pattern,
                (hits[k] + 1) as nat,
                lines[hits[k]],
                case_sensitive,
                switch,
                a[k],
                b[k],
            );
        }
        assert(a =~= b);
    }
}

/// What a steady switch makes of a report, a switch that may turn can make of it too.
pub proof fn lemma_steady_report(
    path: Seq<char>,
    pattern: Seq<char>,
    lines: Seq<Seq<char>>,
    case_sensitive: bool,
    switch: Switch,
    out: Seq<Seq<char>>,
)
    requires
        is_report(path, pattern, lines, case_sensitive, switch, out),
    ensures
        is_report(path, pattern, lines, case_sensitive, Switch::Turning, out),
{
    let hits = matching_lines(lines, pattern, case_sensitive);
    assert forall|k: int| 0 <= k < out.len() implies hit::is_hit(
        path,
        pattern,
        (hits[k] + 1) as nat,
        lines[hits[k]],
        case_sensitive,
        Switch::Turning,
        #[trigger] out[k],
    ) by {
        hit::lemma_steady_hit(
            path,
            pattern,
            (hits[k] + 1) as nat,
            lines[hits[k]],
            case_sensitive,
            switch,
            out[k],
        );
    }
}

/// Reports the matches in a list of lines.
pub fn search_lines(
    path: &str,
    pattern: &str,
    lines: &Vec<String>,
    case_sensitive: bool,
) -> (r: Vec<String>)
    requires
        pattern@.len() > 0 || lines@.len() == 0,
    ensures
        is_report(
            path@,
            pattern@,
            text::texts(lines@),
            case_sensitive,
            paint::process_switch(),
            text::texts(r@),
        ),
        is_report(
            path@,
            pattern@,
            text::texts(lines@),
            case_sensitive,
            Switch::Turning,
            text::texts(r@),
        ),
{
    let ghost all = text::texts(lines@);
    let mut out: Vec<String> = Vec::new();
    let mut i: usize = 0;
    assert(all.take(0) =~= Seq::<Seq<char>>::empty());
    while i < lines.len()
        invariant
            all == text::texts(lines@),
            pattern@.len() > 0 || lines@.len() == 0,
            i <= lines@.len(),
            is_report(
                path@,
                pattern@,
                all.take(i as int),
                case_sensitive,
                paint::process_switch(),
                text::texts(out@),
            ),
        decreases lines@.len() - i,
    {
        let ghost before = text::texts(out@);
        let ghost mut hit: Option<Seq<char>> = None;
        if let Some(found) = process_line(
            path,
            pattern,
            i + 1,
            lines[i].as_str(),
            case_sensitive,
        ) {
            proof {
                hit = Some(found@);
            }
            out.push(found);
            assert(text::texts(out@) =~= before.push(found@));
        }
        proof {
            let line = all[i as int];
            lemma_report_push(
                path@,
                pattern@,
                all.take(i as int),
                case_sensitive,
                paint::process_switch(),
                before,
                line,
                hit,
            );
            assert(all.take(i + 1) =~= all.take(i as int).push(line));
        }
        i = i + 1;
    }
    assert(all.take(i as int) =~= all);
    proof {
        lemma_steady_report(
            path@,
            pattern@,
            all,
            case_sensitive,
            paint::process_switch(),
            text::texts(out@),
        );
    }
    out
}

/// The lines of content in a marked encoding. Content that is shorter than the mark has none.
pub open spec fn marked_lines(marked: Encoding, content: Seq<u8>) -> Seq<Seq<char>> {
    let n = encoding::mark(marked).len() as int;
    if content.len() < n {
        seq![]
    } else {
        text::lines_of(encoding::body_text(marked, content.skip(n)))
    }
}

/// Whether content in a marked encoding is too short to hold a character.
pub open spec fn is_blank(marked: Encoding, content: Seq<u8>) -> bool {
    content.len() < encoding::mark(marked).len() + match marked {
        Encoding::Utf8Bom | Encoding::Unmarked => 1int,
        Encoding::Utf16Le | Encoding::Utf16Be => 2int,
        Encoding::Utf32Le | Encoding::Utf32Be => 4int,
    }
}

/// Whether content in a marked encoding is too short to hold a character.
pub fn lacks_text(marked: Encoding, content: &[u8]) -> (r: bool)
    ensures
        r == is_blank(marked, content@),
{
    let character: usize = match marked {
        Encoding::Utf8Bom | Encoding::Unmarked => 1,
        Encoding::Utf16Le | Encoding::Utf16Be => 2,
        Encoding::Utf32Le | Encoding::Utf32Be => 4,
    };
    content.len() < marked.bom_len() + character
}

proof fn lemma_blank(marked: Encoding, content: Seq<u8>)
    requires
        is_blank(marked, content),
    ensures
        marked_lines(marked, content).len() == 0,
{
    let n = encoding::mark(marked).len() as int;
    if content.len() >= n {
        let body = content.skip(n);
        assert(valid_utf8(Seq::<u8>::empty()));
        match marked {
            Encoding::Utf8Bom | Encoding::Unmarked => {
                assert(body =~= Seq::<u8>::empty());
            },
            _ => {},
        }
        assert(encoding::body_text(marked, body) =~= Seq::<char>::empty());
    }
}

/// Whether invalid bytes hide nothing around them in content in a marked encoding. In UTF-8 the
/// text holds the text of every stretch that is valid; in the others it is known in full.
pub open spec fn keeps_marked_text(marked: Encoding, content: Seq<u8>) -> bool {
    let n = encoding::mark(marked).len() as int;
    marked is Utf8Bom && content.len() >= n ==> encoding::keeps_valid_stretches(
        content.skip(n),
        encoding::body_text(marked, content.skip(n)),
    )
}

/// Whether each line of content in a marked encoding whose bytes hold the keyword is a line with a
/// match. This speaks of UTF-8; in the other encodings the text is known in full.
pub open spec fn finds_marked_matches(
    marked: Encoding,
    content: Seq<u8>,
    pattern: Seq<char>,
    case_sensitive: bool,
) -> bool {
    let n = encoding::mark(marked).len() as int;
    marked is Utf8Bom && content.len() >= n ==> finds_raw_matches(
        content.skip(n),
        marked_lines(marked, content),
        pattern,
        case_sensitive,
    )
}

/// Reports the matches in content in a marked encoding.
pub fn search_marked(
    path: &str,
    pattern: &str,
    marked: Encoding,
    content: &[u8],
    case_sensitive: bool,
) -> (r: Vec<String>)
    requires
        !(marked is Unmarked),
        pattern@.len() > 0 || is_blank(marked, content@),
    ensures
        is_report(
            path@,
            pattern@,
            marked_lines(marked, content@),
            case_sensitive,
            paint::process_switch(),
            text::texts(r@),
        ),
        is_report(
            path@,
            pattern@,
            marked_lines(marked, content@),
            case_sensitive,
            Switch::Turning,
            text::texts(r@),
        ),
        keeps_marked_text(marked, content@),
        ends_in_line(pattern@) ==> finds_marked_matches(
            marked,
            content@,
            pattern@,
            case_sensitive,
        ),
{
    proof {
        if pattern@.len() == 0 {
            lemma_blank(marked, content@);
        }
    }
    match decode_content(marked, content) {
        Some(decoded) => {
            let lines: Vec<String> = text::split_lines(decoded.as_str());
            proof {
                let body = content@.skip(encoding::mark(marked).len() as int);
                if marked is Utf8Bom && ends_in_line(pattern@) {
                    lemma_marked_match_found(body, decoded@, pattern@, case_sensitive);
                }
            }
            search_lines(path, pattern, &lines, case_sensitive)
        },
        None => {
            let none: Vec<String> = Vec::new();
            none
        },
    }
}

/// The number of bytes up to and with the first line feed, or of all bytes without one.
pub open spec fn raw_end(bytes: Seq<u8>) -> int
    decreases bytes.len(),
{
    if bytes.len() == 0 {
        0
    } else if bytes[0] == 0x0a {
        1
    } else {
        1 + raw_end(bytes.drop_first())
    }
}

/// The lines of unmarked content as stretches of bytes, each with the line feed that ends it.
pub open spec fn raw_lines(content: Seq<u8>) -> Seq<Seq<u8>>
    decreases content.len(),
{
    let end = raw_end(content);
    if 0 < end <= content.len() {
        seq![content.take(end)] + raw_lines(content.skip(end))
    } else {
        seq![]
    }
}

/// The text of one line of unmarked content, without the line feeds and carriage returns at its
/// end.
pub open spec fn raw_line_text(raw: Seq<u8>) -> Seq<char> {
    text::trimmed(encoding::utf8_text(raw))
}

/// Whether the text of a line of unmarked content holds the text of the bytes from `i` to `j`, but
/// for line feeds and carriage returns at its end: at the beginning or the end of the line where
/// the bytes are at theirs.
pub open spec fn keeps_line_stretch(raw: Seq<u8>, i: int, j: int) -> bool {
    let line = raw_line_text(raw);
    let part = text::trimmed(decode_utf8(raw.subrange(i, j)));
    exists|p: int|
        {
            &&& #[trigger] encoding::stands_at(line, part, p)
            &&& i == 0 ==> p == 0
            &&& j == raw.len() ==> p + part.len() == line.len()
        }
}

/// Whether the text of a line of unmarked content holds the text of every stretch of the line that
/// is valid UTF-8: invalid bytes hide nothing of the line that stands before, between or behind
/// them.
pub open spec fn keeps_line_stretches(raw: Seq<u8>) -> bool {
    forall|i: int, j: int|
        0 <= i <= j <= raw.len() && valid_utf8(#[trigger] raw.subrange(i, j))
            ==> keeps_line_stretch(raw, i, j)
}

/// Whether invalid bytes hide nothing around them in the lines of unmarked content.
pub open spec fn keeps_raw_lines(content: Seq<u8>) -> bool {
    forall|i: int|
        0 <= i < raw_lines(content).len() ==> keeps_line_stretches(#[trigger] raw_lines(content)[i])
}

/// The lines of unmarked content.
pub open spec fn unmarked_lines(content: Seq<u8>) -> Seq<Seq<char>> {
    let raw = raw_lines(content);
    Seq::new(raw.len(), |i: int| raw_line_text(raw[i]))
}

/// Whether the bytes of a line hold the bytes of the keyword.
pub open spec fn raw_line_matches(
    raw: Seq<u8>,
    pattern: Seq<char>,
    case_sensitive: bool,
) -> bool {
    exists|k: int| matching::matches_at(raw, encode_utf8(pattern), case_sensitive, k)
}

/// Whether a keyword ends before the end of the line that holds it.
pub open spec fn ends_in_line(pattern: Seq<char>) -> bool {
    pattern.len() > 0 && !text::is_line_ending(pattern.last())
}

/// Whether each line of UTF-8 content whose bytes hold the keyword is a line with a match, under
/// the same number, whatever invalid bytes stand around the keyword.
pub open spec fn finds_raw_matches(
    content: Seq<u8>,
    lines: Seq<Seq<char>>,
    pattern: Seq<char>,
    case_sensitive: bool,
) -> bool {
    forall|l: int|
        0 <= l < raw_lines(content).len() && raw_line_matches(
            #[trigger] raw_lines(content)[l],
            pattern,
            case_sensitive,
        ) ==> l < lines.len() && hit::line_matches(lines[l], pattern, case_sensitive)
}

proof fn lemma_ascii_last(s: Seq<char>, b: u8)
    requires
        b < 0x80,
        s.len() > 0,
    ensures
        encode_utf8(s).len() > 0,
        encode_utf8(s).last() == b <==> s.last() == b as char,
{
    let init = s.drop_last();
    let last = seq![s.last()];
    assert(s =~= init + last);
    lemma_encode_concat(init, last);
    encode_utf8_first_scalar(last);
    assert(encode_utf8(s).last() == encode_utf8(last).last());
    if s.last() == b as char {
        assert(encode_utf8(last) =~= seq![b]) by {
            assert(leading_byte_width_1(b as u32) == b) by (bit_vector)
                requires
                    b < 0x80,
            ;
            assert(last.drop_first() =~= Seq::<char>::empty());
            reveal_with_fuel(encode_utf8, 2);
        }
    } else {
        lemma_absent_byte(last, b);
        assert(encode_utf8(last).contains(encode_utf8(last).last()));
    }
}

proof fn lemma_present_byte(s: Seq<char>, b: u8)
    requires
        b < 0x80,
        s.contains(b as char),
    ensures
        encode_utf8(s).contains(b),
{
    let q = choose|q: int| 0 <= q < s.len() && s[q] == b as char;
    let head = s.take(q + 1);
    let tail = s.skip(q + 1);
    assert(s =~= head + tail);
    lemma_encode_concat(head, tail);
    lemma_ascii_last(head, b);
    let at = encode_utf8(head).len() - 1;
    assert(encode_utf8(s)[at] == b);
}

/// The text that a keyword matches in a byte sequence. It ends with no line ending, as the keyword
/// does not.
proof fn lemma_matched_text(raw: Seq<u8>, pattern: Seq<char>, case_sensitive: bool, k: int) -> (r:
    Seq<char>)
    requires
        ends_in_line(pattern),
        matching::matches_at(raw, encode_utf8(pattern), case_sensitive, k),
    ensures
        valid_utf8(raw.subrange(k, k + encode_utf8(pattern).len())),
        r == decode_utf8(raw.subrange(k, k + encode_utf8(pattern).len())),
        encode_utf8(r) == raw.subrange(k, k + encode_utf8(pattern).len()),
        matching::matches_at(encode_utf8(r), encode_utf8(pattern), case_sensitive, 0),
        ends_in_line(r),
{
    let pat = encode_utf8(pattern);
    let found = raw.subrange(k, k + pat.len());
    let r = decode_utf8(found);
    encode_utf8_valid_utf8(pattern);
    matching::lemma_match_valid(raw, pat, case_sensitive, k);
    decode_utf8_encode_utf8(found);
    lemma_ascii_last(pattern, 0x0a);
    lemma_ascii_last(pattern, 0x0d);
    assert forall|m: int| 0 <= m < pat.len() implies matching::same_byte(
        found[0 + m],
        #[trigger] pat[m],
        case_sensitive,
    ) by {
        assert(matching::same_byte(raw[k + m], pat[m], case_sensitive));
    }
    let last = pat.len() - 1;
    assert(matching::same_byte(found[0 + last], pat[last], case_sensitive));
    assert(r.len() > 0);
    lemma_ascii_last(r, 0x0a);
    lemma_ascii_last(r, 0x0d);
    r
}

proof fn lemma_part_matches(
    line: Seq<char>,
    part: Seq<char>,
    p: int,
    pattern: Seq<char>,
    case_sensitive: bool,
)
    requires
        encoding::stands_at(line, part, p),
        encode_utf8(part).len() == encode_utf8(pattern).len(),
        matching::matches_at(encode_utf8(part), encode_utf8(pattern), case_sensitive, 0),
    ensures
        hit::line_matches(line, pattern, case_sensitive),
{
    let pat = encode_utf8(pattern);
    let head = line.take(p);
    let tail = line.skip(p + part.len());
    assert(line =~= head + part + tail);
    lemma_encode_concat(head + part, tail);
    lemma_encode_concat(head, part);
    let bytes = encode_utf8(line);
    let at = encode_utf8(head).len() as int;
    assert forall|m: int| 0 <= m < pat.len() implies matching::same_byte(
        bytes[at + m],
        #[trigger] pat[m],
        case_sensitive,
    ) by {
        assert(matching::same_byte(encode_utf8(part)[0 + m], pat[m], case_sensitive));
        assert(bytes[at + m] == encode_utf8(part)[m]);
    }
    matching::lemma_first_match(bytes, pat, case_sensitive, at);
}

/// Invalid bytes hide no match in a line of unmarked content: where the bytes of the line hold the
/// keyword, its text does.
pub proof fn lemma_raw_match_found(raw: Seq<u8>, pattern: Seq<char>, case_sensitive: bool)
    requires
        keeps_line_stretches(raw),
        ends_in_line(pattern),
        raw_line_matches(raw, pattern, case_sensitive),
    ensures
        hit::line_matches(raw_line_text(raw), pattern, case_sensitive),
{
    let pat = encode_utf8(pattern);
    let k = choose|k: int| matching::matches_at(raw, pat, case_sensitive, k);
    let part = lemma_matched_text(raw, pattern, case_sensitive, k);
    assert(keeps_line_stretch(raw, k, k + pat.len()));
    assert(text::trimmed(part) == part);
    let p = choose|p: int| encoding::stands_at(raw_line_text(raw), part, p);
    lemma_part_matches(raw_line_text(raw), part, p, pattern, case_sensitive);
}

proof fn lemma_raw_matches_found(content: Seq<u8>, pattern: Seq<char>, case_sensitive: bool)
    requires
        keeps_raw_lines(content),
        ends_in_line(pattern),
    ensures
        finds_raw_matches(content, unmarked_lines(content), pattern, case_sensitive),
{
    assert forall|l: int|
        0 <= l < raw_lines(content).len() && raw_line_matches(
            #[trigger] raw_lines(content)[l],
            pattern,
            case_sensitive,
        ) implies hit::line_matches(unmarked_lines(content)[l], pattern, case_sensitive) by {
        lemma_raw_match_found(raw_lines(content)[l], pattern, case_sensitive);
    }
}

proof fn lemma_no_feeds(s: Seq<char>)
    requires
        !s.contains('\n'),
    ensures
        encoding::feeds(s) == 0,
    decreases s.len(),
{
    reveal(Seq::filter);
    if s.len() > 0 {
        assert(s.contains(s.last()));
        assert forall|k: int| 0 <= k < s.len() - 1 implies s.drop_last()[k] != '\n' by {
            assert(s.contains(s[k]));
        }
        lemma_no_feeds(s.drop_last());
    }
}

proof fn lemma_no_byte_feeds(bytes: Seq<u8>)
    requires
        forall|k: int| 0 <= k < bytes.len() ==> bytes[k] != 0x0a,
    ensures
        encoding::byte_feeds(bytes) == 0,
    decreases bytes.len(),
{
    reveal(Seq::filter);
    if bytes.len() > 0 {
        lemma_no_byte_feeds(bytes.drop_last());
    }
}

/// A part of a text without line feeds stands in one of its lines, in the one with as many line
/// feeds before it.
proof fn lemma_part_in_line(whole: Seq<char>, part: Seq<char>, p: int) -> (q: int)
    requires
        encoding::stands_at(whole, part, p),
        ends_in_line(part),
        !part.contains('\n'),
    ensures
        encoding::feeds(whole.take(p)) < text::lines_of(whole).len(),
        encoding::stands_at(
            text::lines_of(whole)[encoding::feeds(whole.take(p)) as int],
            part,
            q,
        ),
    decreases whole.len(),
{
    let end = text::line_end(whole);
    let line = whole.take(end);
    lemma_line_end_bounds(whole);
    assert forall|k: int| 0 <= k < part.len() implies whole[p + k] == part[k] && part[k]
        != '\n' by {
        assert(whole.subrange(p, p + part.len())[k] == part[k]);
        assert(part.contains(part[k]));
    }
    if end < p {
        let rest = whole.skip(end + 1);
        let head = whole.take(end + 1);
        let at = p - end - 1;
        assert(rest.subrange(at, at + part.len()) =~= part);
        let q = lemma_part_in_line(rest, part, at);
        assert(whole.take(p) =~= head + rest.take(at));
        Seq::filter_distributes_over_add(head, rest.take(at), |c: char| c == '\n');
        assert(encoding::feeds(head) == 1) by {
            reveal(Seq::filter);
            assert(head.drop_last() =~= line);
            lemma_no_feeds(line);
        }
        q
    } else {
        assert(!whole.take(p).contains('\n')) by {
            assert forall|k: int| 0 <= k < p implies whole[k] != '\n' by {
                assert(line[k] == whole[k]);
                assert(line.contains(line[k]));
            }
        }
        lemma_no_feeds(whole.take(p));
        if end < whole.len() {
            if p + part.len() > end {
                assert(whole[p + (end - p)] == part[end - p]);
            }
            let shown = text::without_return(line);
            if p + part.len() == end {
                assert(line.last() == part.last());
            }
            assert(shown.subrange(p, p + part.len()) =~= part);
        }
        p
    }
}

/// Where in content the keyword stands that one of its lines holds: behind as many line feeds as
/// there are lines before.
proof fn lemma_match_in_content(
    content: Seq<u8>,
    pattern: Seq<char>,
    case_sensitive: bool,
    l: int,
) -> (i: int)
    requires
        ends_in_line(pattern),
        0 <= l < raw_lines(content).len(),
        raw_line_matches(raw_lines(content)[l], pattern, case_sensitive),
    ensures
        matching::matches_at(content, encode_utf8(pattern), case_sensitive, i),
        encoding::byte_feeds(content.take(i)) == l,
        !content.subrange(i, i + encode_utf8(pattern).len()).contains(0x0a),
    decreases content.len(),
{
    let pat = encode_utf8(pattern);
    let end = raw_end(content);
    let line = content.take(end);
    let rest = content.skip(end);
    lemma_raw_end_bounds(content);
    lemma_ascii_last(pattern, 0x0a);
    if l == 0 {
        let k = choose|k: int| matching::matches_at(line, pat, case_sensitive, k);
        let found = content.subrange(k, k + pat.len());
        assert forall|m: int| 0 <= m < pat.len() implies matching::same_byte(
            content[k + m],
            #[trigger] pat[m],
            case_sensitive,
        ) by {
            assert(matching::same_byte(line[k + m], pat[m], case_sensitive));
        }
        let last = pat.len() - 1;
        assert(matching::same_byte(content[k + last], pat[last], case_sensitive));
        assert(content[k + last] != 0x0a);
        assert forall|m: int| 0 <= m < found.len() implies found[m] != 0x0a by {
            assert(found[m] == content[k + m]);
        }
        lemma_no_byte_feeds(content.take(k));
        k
    } else {
        assert(raw_lines(content)[l] == raw_lines(rest)[l - 1]);
        lemma_raw_end_bounds(rest);
        let at = lemma_match_in_content(rest, pattern, case_sensitive, l - 1);
        let i = end + at;
        assert forall|m: int| 0 <= m < pat.len() implies matching::same_byte(
            content[i + m],
            #[trigger] pat[m],
            case_sensitive,
        ) by {
            assert(matching::same_byte(rest[at + m], pat[m], case_sensitive));
        }
        assert(content.take(i) =~= line + rest.take(at));
        Seq::filter_distributes_over_add(line, rest.take(at), |b: u8| b == 0x0a);
        assert(encoding::byte_feeds(line) == 1) by {
            reveal(Seq::filter);
            lemma_no_byte_feeds(line.drop_last());
        }
        assert(content.subrange(i, i + pat.len()) =~= rest.subrange(at, at + pat.len()));
        i
    }
}

/// Invalid bytes hide no match in UTF-8 behind a byte order mark either: each line whose bytes hold
/// the keyword is a line with a match, under the same number.
pub proof fn lemma_marked_match_found(
    body: Seq<u8>,
    decoded: Seq<char>,
    pattern: Seq<char>,
    case_sensitive: bool,
)
    requires
        encoding::keeps_valid_stretches(body, decoded),
        ends_in_line(pattern),
    ensures
        finds_raw_matches(body, text::lines_of(decoded), pattern, case_sensitive),
{
    let pat = encode_utf8(pattern);
    let lines = text::lines_of(decoded);
    assert forall|l: int|
        0 <= l < raw_lines(body).len() && raw_line_matches(
            #[trigger] raw_lines(body)[l],
            pattern,
            case_sensitive,
        ) implies l < lines.len() && hit::line_matches(lines[l], pattern, case_sensitive) by {
        let i = lemma_match_in_content(body, pattern, case_sensitive, l);
        let part = lemma_matched_text(body, pattern, case_sensitive, i);
        if part.contains('\n') {
            lemma_present_byte(part, 0x0a);
        }
        let p = encoding::lemma_stretch_place(body, decoded, i, i + pat.len());
        let q = lemma_part_in_line(decoded, part, p);
        lemma_part_matches(lines[l], part, q, pattern, case_sensitive);
    }
}

proof fn lemma_trimmed_is_prefix(s: Seq<char>)
    ensures
        text::trimmed(s).is_prefix_of(s),
    decreases s.len(),
{
    if s.len() > 0 && text::is_line_ending(s.last()) {
        lemma_trimmed_is_prefix(s.drop_last());
    }
}

proof fn lemma_trimmed_part(whole: Seq<char>, part: Seq<char>, p: int) -> (q: int)
    requires
        encoding::stands_at(whole, part, p),
    ensures
        encoding::stands_at(text::trimmed(whole), text::trimmed(part), q),
        p == 0 ==> q == 0,
        p + part.len() == whole.len() ==> q + text::trimmed(part).len() == text::trimmed(
            whole,
        ).len(),
    decreases whole.len(),
{
    if whole.len() > 0 && text::is_line_ending(whole.last()) {
        let init = whole.drop_last();
        if p + part.len() < whole.len() {
            assert(init.subrange(p, p + part.len()) =~= part);
            lemma_trimmed_part(init, part, p)
        } else if part.len() == 0 {
            assert(init.subrange(p - 1, p - 1) =~= part);
            lemma_trimmed_part(init, part, p - 1)
        } else {
            assert(part.last() == whole.subrange(p, p + part.len()).last());
            assert(init.subrange(p, p + part.len() - 1) =~= part.drop_last()) by {
                assert forall|k: int| 0 <= k < part.len() - 1 implies init[p + k] == part[k] by {
                    assert(whole.subrange(p, p + part.len())[k] == part[k]);
                }
            }
            lemma_trimmed_part(init, part.drop_last(), p)
        }
    } else {
        let t = text::trimmed(part);
        lemma_trimmed_is_prefix(part);
        assert(whole.subrange(p, p + t.len()) =~= t) by {
            assert forall|k: int| 0 <= k < t.len() implies whole[p + k] == t[k] by {
                assert(whole.subrange(p, p + part.len())[k] == part[k]);
                assert(part.subrange(0, t.len() as int)[k] == part[k]);
            }
        }
        if part.len() > 0 && p + part.len() == whole.len() {
            assert(part.last() == whole.subrange(p, p + part.len()).last());
        }
        p
    }
}

/// The text of one line of unmarked content, without the line feeds and carriage returns at its
/// end. Invalid bytes hide nothing of the line that stands before, between or behind them.
pub fn decode_raw_line(raw: &[u8]) -> (r: String)
    ensures
        r@ == raw_line_text(raw@),
        keeps_line_stretches(raw@),
{
    let decoded: String = lossy_text(raw);
    let line: String = String::from_str(text::trim_line_end(decoded.as_str()));
    proof {
        assert forall|i: int, j: int|
            0 <= i <= j <= raw@.len() && valid_utf8(
                #[trigger] raw@.subrange(i, j),
            ) implies keeps_line_stretch(raw@, i, j) by {
            let part = decode_utf8(raw@.subrange(i, j));
            let p = encoding::lemma_stretch_place(raw@, decoded@, i, j);
            let q = lemma_trimmed_part(decoded@, part, p);
            assert(encoding::stands_at(line@, text::trimmed(part), q));
            assert(raw_line_text(raw@) == line@);
        }
    }
    line
}

/// What to do after a read.
#[derive(Debug)]
pub enum Step {
    /// The file is done.
    Stop,
    /// Report the match, if there is one, and read the next line.
    Continue(Option<String>),
}

/// A search through unmarked content that is read one line at a time.
pub struct LineSearch {
    line_no: usize,
}

impl View for LineSearch {
    type V = nat;

    /// The number of lines searched so far.
    closed spec fn view(&self) -> nat {
        self.line_no as nat
    }
}

impl LineSearch {
    /// A search that has seen no line yet.
    pub fn new() -> (r: Self)
        ensures
            r@ == 0,
    {
        LineSearch { line_no: 0 }
    }

    /// The number of lines searched so far.
    pub fn line_no(&self) -> (r: usize)
        ensures
            r == self@,
    {
        self.line_no
    }

    /// Searches what a read gave: the bytes up to and with the next line feed, no bytes at the end
    /// of the file, or nothing where the read failed.
    pub fn step(
        &mut self,
        read: Option<&[u8]>,
        path: &str,
        pattern: &str,
        case_sensitive: bool,
    ) -> (r: Step)
        requires
            read matches Some(raw) && raw@.len() > 0 ==> old(self)@ < usize::MAX && pattern@.len()
                > 0,
        ensures
            r is Stop <==> read is None || read->0@.len() == 0,
            r is Stop ==> final(self)@ == old(self)@,
            r is Continue ==> keeps_line_stretches(read->0@),
            r matches Step::Continue(hit) ==> ends_in_line(pattern@) && raw_line_matches(
                read->0@,
                pattern@,
                case_sensitive,
            ) ==> hit is Some,
            r matches Step::Continue(hit) ==> {
                let line = raw_line_text(read->0@);
                &&& final(self)@ == old(self)@ + 1
                &&& hit is Some <==> hit::line_matches(line, pattern@, case_sensitive)
                &&& hit matches Some(out) ==> hit::is_hit(
                    path@,
                    pattern@,
                    final(self)@,
                    line,
                    case_sensitive,
                    paint::process_switch(),
                    out@,
                )
                &&& hit matches Some(out) ==> hit::is_hit(
                    path@,
                    pattern@,
                    final(self)@,
                    line,
                    case_sensitive,
                    Switch::Turning,
                    out@,
                )
            },
    {
        match read {
            Some(raw) => {
                if raw.len() == 0 {
                    return Step::Stop;
                }
                self.line_no = self.line_no + 1;
                let line: String = decode_raw_line(raw);
                proof {
                    if ends_in_line(pattern@) && raw_line_matches(raw@, pattern@, case_sensitive) {
                        lemma_raw_match_found(raw@, pattern@, case_sensitive);
                    }
                }
                Step::Continue(
                    process_line(path, pattern, self.line_no, line.as_str(), case_sensitive),
                )
            },
            None => Step::Stop,
        }
    }
}

proof fn lemma_raw_end(bytes: Seq<u8>, n: int)
    requires
        0 <= n <= bytes.len(),
        forall|i: int| 0 <= i < n ==> bytes[i] != 0x0a,
        n == bytes.len() || bytes[n] == 0x0a,
    ensures
        raw_end(bytes) == if n == bytes.len() {
            n
        } else {
            n + 1
        },
    decreases bytes.len(),
{
    if n > 0 {
        lemma_raw_end(bytes.drop_first(), n - 1);
    }
}

/// The number of bytes of the next line, with its line feed.
fn next_line_len(bytes: &[u8]) -> (r: usize)
    ensures
        r == raw_end(bytes@),
        r <= bytes@.len(),
        bytes@.len() > 0 ==> r > 0,
{
    let mut n: usize = 0;
    while n < bytes.len()
        invariant
            n <= bytes@.len(),
            forall|i: int| 0 <= i < n ==> bytes@[i] != 0x0a,
        decreases bytes@.len() - n,
    {
        if bytes[n] == 0x0a {
            proof {
                lemma_raw_end(bytes@, n as int);
            }
            return n + 1;
        }
        n = n + 1;
    }
    proof {
        lemma_raw_end(bytes@, n as int);
    }
    n
}

/// Reports the matches in unmarked content.
pub fn search_utf8_lines(
    path: &str,
    pattern: &str,
    content: &[u8],
    case_sensitive: bool,
) -> (r: Vec<String>)
    requires
        pattern@.len() > 0 || content@.len() == 0,
    ensures
        is_report(
            path@,
            pattern@,
            unmarked_lines(content@),
            case_sensitive,
            paint::process_switch(),
            text::texts(r@),
        ),
        is_report(
            path@,
            pattern@,
            unmarked_lines(content@),
            case_sensitive,
            Switch::Turning,
            text::texts(r@),
        ),
        keeps_raw_lines(content@),
        ends_in_line(pattern@) ==> finds_raw_matches(
            content@,
            unmarked_lines(content@),
            pattern@,
            case_sensitive,
        ),
{
    let mut out: Vec<String> = Vec::new();
    let mut search: LineSearch = LineSearch::new();
    let mut rest: &[u8] = content;
    let ghost mut done: Seq<Seq<char>> = seq![];
    let ghost mut raw_done: Seq<Seq<u8>> = seq![];
    assert(raw_lines(content@) =~= raw_done + raw_lines(rest@));
    assert(unmarked_lines(content@) =~= done + unmarked_lines(rest@));
    loop
        invariant
            pattern@.len() > 0 || rest@.len() == 0,
            search@ == done.len(),
            done.len() + rest@.len() <= content@.len(),
            unmarked_lines(content@) == done + unmarked_lines(rest@),
            is_report(
                path@,
                pattern@,
                done,
                case_sensitive,
                paint::process_switch(),
                text::texts(out@),
            ),
            raw_lines(content@) == raw_done + raw_lines(rest@),
            forall|i: int|
                0 <= i < raw_done.len() ==> keeps_line_stretches(#[trigger] raw_done[i]),
        decreases rest@.len(),
    {
        let ghost before = text::texts(out@);
        let n: usize = next_line_len(rest);
        let line: &[u8] = vstd::slice::slice_subrange(rest, 0, n);
        let next: &[u8] = vstd::slice::slice_subrange(rest, n, rest.len());
        assert(content.len() == content@.len());
        match search.step(Some(line), path, pattern, case_sensitive) {
            Step::Stop => {
                assert(raw_lines(rest@) =~= seq![]);
                assert(done + unmarked_lines(rest@) =~= done);
                assert(raw_done + raw_lines(rest@) =~= raw_done);
                proof {
                    lemma_steady_report(
                        path@,
                        pattern@,
                        done,
                        case_sensitive,
                        paint::process_switch(),
                        text::texts(out@),
                    );
                    if ends_in_line(pattern@) {
                        lemma_raw_matches_found(content@, pattern@, case_sensitive);
                    }
                }
                return out;
            },
            Step::Continue(hit) => {
                let ghost mut seen: Option<Seq<char>> = None;
                if let Some(found) = hit {
                    proof {
                        seen = Some(found@);
                    }
                    out.push(found);
                    assert(text::texts(out@) =~= before.push(found@));
                }
                proof {
                    let t = raw_line_text(line@);
                    lemma_report_push(
                        path@,
                        pattern@,
                        done,
                        case_sensitive,
                        paint::process_switch(),
                        before,
                        t,
                        seen,
                    );
                    assert(line@ =~= rest@.take(n as int));
                    assert(next@ =~= rest@.skip(n as int));
                    assert(unmarked_lines(rest@) =~= seq![t] + unmarked_lines(next@));
                    assert(done + (seq![t] + unmarked_lines(next@)) =~= done.push(t)
                        + unmarked_lines(next@));
                    done = done.push(t);
                    assert(raw_done + raw_lines(rest@) =~= raw_done.push(line@) + raw_lines(next@));
                    raw_done = raw_done.push(line@);
                }
                rest = next;
            },
        }
    }
}

/// How to search a file, judged by its first bytes.
#[derive(Debug, PartialEq, Eq, Clone, Copy, Structural)]
pub enum Plan {
    /// The file is binary.
    Skip,
    /// Read and search line by line.
    Lines,
    /// Read and decode the whole file.
    Decode(Encoding),
}

/// How to search a file that begins with `head`. A byte order mark decides; without one, a zero
/// byte tells that the file is binary.
pub open spec fn planned(head: Seq<u8>) -> Plan {
    let found = encoding::detected(head);
    if !(found is Unmarked) {
        Plan::Decode(found)
    } else if head.contains(0u8) {
        Plan::Skip
    } else {
        Plan::Lines
    }
}

/// Decides how to search a file that begins with `head`.
pub fn plan_search(head: &[u8]) -> (r: Plan)
    ensures
        r == planned(head@),
{
    let found: Encoding = detect_encoding(head);
    if found != Encoding::Unmarked {
        return Plan::Decode(found);
    }
    let mut i: usize = 0;
    while i < head.len()
        invariant
            found == encoding::detected(head@),
            found is Unmarked,
            i <= head@.len(),
            forall|j: int| 0 <= j < i ==> head@[j] != 0,
        decreases head@.len() - i,
    {
        if head[i] == 0 {
            assert(head@.contains(head@[i as int]));
            return Plan::Skip;
        }
        i = i + 1;
    }
    Plan::Lines
}

/// The lines that are searched of a file with the given content, of which `head` was seen first.
pub open spec fn searched_lines(head: Seq<u8>, content: Seq<u8>) -> Seq<Seq<char>> {
    match planned(head) {
        Plan::Skip => seq![],
        Plan::Lines => unmarked_lines(content),
        Plan::Decode(found) => marked_lines(found, content),
    }
}

/// Whether content, of which `head` was seen first, has no lines to search.
pub open spec fn nothing_to_search(head: Seq<u8>, content: Seq<u8>) -> bool {
    match planned(head) {
        Plan::Skip => true,
        Plan::Lines => content.len() == 0,
        Plan::Decode(found) => is_blank(found, content),
    }
}

/// Whether invalid bytes hide nothing around them in the lines that are searched of content, of
/// which `head` was seen first.
pub open spec fn keeps_stretches(head: Seq<u8>, content: Seq<u8>) -> bool {
    match planned(head) {
        Plan::Skip => true,
        Plan::Lines => keeps_raw_lines(content),
        Plan::Decode(found) => keeps_marked_text(found, content),
    }
}

/// Whether each line of content, of which `head` was seen first, is a line with a match where its
/// bytes hold the keyword. This speaks of UTF-8, marked or not.
pub open spec fn finds_matches(
    head: Seq<u8>,
    content: Seq<u8>,
    pattern: Seq<char>,
    case_sensitive: bool,
) -> bool {
    match planned(head) {
        Plan::Skip => true,
        Plan::Lines => finds_raw_matches(
            content,
            unmarked_lines(content),
            pattern,
            case_sensitive,
        ),
        Plan::Decode(found) => finds_marked_matches(found, content, pattern, case_sensitive),
    }
}

/// Reports the matches in a file with the given content, of which `head` was seen first.
pub fn search_file(
    path: &str,
    pattern: &str,
    head: &[u8],
    content: &[u8],
    case_sensitive: bool,
) -> (r: Vec<String>)
    requires
        pattern@.len() > 0 || nothing_to_search(head@, content@),
    ensures
        is_report(
            path@,
            pattern@,
            searched_lines(head@, content@),
            case_sensitive,
            paint::process_switch(),
            text::texts(r@),
        ),
        is_report(
            path@,
            pattern@,
            searched_lines(head@, content@),
            case_sensitive,
            Switch::Turning,
            text::texts(r@),
        ),
        keeps_stretches(head@, content@),
        ends_in_line(pattern@) ==> finds_matches(head@, content@, pattern@, case_sensitive),
{
    match plan_search(head) {
        Plan::Skip => {
            let none: Vec<String> = Vec::new();
            none
        },
        Plan::Lines => search_utf8_lines(path, pattern, content, case_sensitive),
        Plan::Decode(found) => search_marked(path, pattern, found, content, case_sensitive),
    }
}

/// A text is found in whatever marked encoding it was written: the lines searched of a file that
/// holds a byte order mark and the text are the lines of the text, without a trace of the mark.
///
/// In little-endian UTF-16 the text must not begin with the zero character, whose bytes would
/// complete the mark to that of UTF-32.
pub proof fn lemma_marked_text_searched(marked: Encoding, written: Seq<char>, head: Seq<u8>)
    requires
        !(marked is Unmarked),
        marked is Utf16Le ==> written.len() == 0 || written[0] != '\0',
        head.is_prefix_of(encoding::mark(marked) + encoding::encoded(marked, written)),
        head.len() >= 4 || head == encoding::mark(marked) + encoding::encoded(marked, written),
    ensures
        searched_lines(head, encoding::mark(marked) + encoding::encoded(marked, written))
            == text::lines_of(written),
{
    let body = encoding::encoded(marked, written);
    let content = encoding::mark(marked) + body;
    if marked is Utf16Le {
        encoding::lemma_utf16_leading_zeros(written);
    }
    encoding::lemma_mark_detected(marked, body);
    encoding::lemma_head_suffices(head, content);
    encoding::lemma_encoded_text(marked, written);
    assert(content.skip(encoding::mark(marked).len() as int) =~= body);
}

/// A binary file is not searched: a zero byte among the bytes seen first, and no byte order mark,
/// leave no lines.
pub proof fn lemma_binary_skipped(head: Seq<u8>, content: Seq<u8>)
    requires
        encoding::detected(head) is Unmarked,
        head.contains(0u8),
    ensures
        searched_lines(head, content) == Seq::<Seq<char>>::empty(),
{
}

/// Reading line by line loses nothing: the lines of unmarked content, put together, are the
/// content, and a line feed stands nowhere but at the end of a line.
pub proof fn lemma_raw_lines_cover(content: Seq<u8>)
    ensures
        raw_lines(content).flatten() == content,
        forall|i: int|
            0 <= i < raw_lines(content).len() ==> (#[trigger] raw_lines(content)[i]).len() > 0,
        forall|i: int, k: int|
            0 <= i < raw_lines(content).len() && 0 <= k < raw_lines(content)[i].len() - 1
                ==> #[trigger] raw_lines(content)[i][k] != 0x0a,
        forall|i: int|
            0 <= i < raw_lines(content).len() - 1 ==> (#[trigger] raw_lines(content)[i]).last()
                == 0x0a,
    decreases content.len(),
{
    let end = raw_end(content);
    lemma_raw_end_bounds(content);
    if content.len() > 0 {
        let line = content.take(end);
        let rest = content.skip(end);
        let all = raw_lines(content);
        lemma_raw_lines_cover(rest);
        assert(all.drop_first() =~= raw_lines(rest));
        assert(line + rest =~= content);
        assert forall|i: int, k: int| 0 <= i < all.len() && 0 <= k < all[i].len() - 1 implies
            #[trigger] all[i][k] != 0x0a by {
            if i > 0 {
                assert(all[i] == raw_lines(rest)[i - 1]);
            }
        }
        assert forall|i: int| 0 <= i < all.len() - 1 implies (#[trigger] all[i]).last() == 0x0a by {
            if i > 0 {
                assert(all[i] == raw_lines(rest)[i - 1]);
            } else if rest.len() == 0 {
                lemma_raw_end_bounds(rest);
            }
        }
    }
}

proof fn lemma_raw_end_bounds(bytes: Seq<u8>)
    ensures
        0 <= raw_end(bytes) <= bytes.len(),
        bytes.len() > 0 ==> raw_end(bytes) > 0,
        forall|k: int| 0 <= k < raw_end(bytes) - 1 ==> bytes[k] != 0x0a,
        raw_end(bytes) < bytes.len() ==> bytes[raw_end(bytes) - 1] == 0x0a,
    decreases bytes.len(),
{
    if bytes.len() > 0 && bytes[0] != 0x0a {
        let rest = bytes.drop_first();
        lemma_raw_end_bounds(rest);
        assert forall|k: int| 0 <= k < raw_end(bytes) - 1 implies bytes[k] != 0x0a by {
            if k > 0 {
                assert(bytes[k] == rest[k - 1]);
            }
        }
    }
}

/// An ASCII character that a text lacks has no byte in the UTF-8 of the text.
pub proof fn lemma_absent_byte(written: Seq<char>, absent: u8)
    requires
        absent < 0x80,
        !written.contains(absent as char),
    ensures
        !encode_utf8(written).contains(absent),
    decreases written.len(),
{
    if written.len() > 0 {
        let b = encode_utf8(written);
        let rest = written.drop_first();
        assert(written.contains(written[0]));
        assert forall|k: int| 0 <= k < rest.len() implies rest[k] != absent as char by {
            assert(written.contains(written[k + 1]));
        }
        lemma_absent_byte(rest, absent);
        encode_utf8_first_scalar(written);
        let n = length_of_first_scalar(b);
        assert(codepoint_width_1(absent) == absent) by (bit_vector)
            requires
                absent < 0x80,
        ;
        char_u32_cast(written[0], written[0] as u32);
        assert forall|i: int| 0 <= i < b.len() implies b[i] != absent by {
            if i >= n {
                assert(b[i] == encode_utf8(rest)[i - n]);
                assert(encode_utf8(rest).contains(b[i]));
            }
        }
    }
}

/// The UTF-8 of two texts, one behind the other, is that of the first and then that of the second.
pub proof fn lemma_encode_concat(a: Seq<char>, b: Seq<char>)
    ensures
        encode_utf8(a + b) == encode_utf8(a) + encode_utf8(b),
    decreases a.len(),
{
    if a.len() == 0 {
        assert(a + b =~= b);
        assert(encode_utf8(a) + encode_utf8(b) =~= encode_utf8(b));
    } else {
        assert((a + b).drop_first() =~= a.drop_first() + b);
        lemma_encode_concat(a.drop_first(), b);
        assert(encode_utf8(a + b) =~= encode_utf8(a) + encode_utf8(b));
    }
}

proof fn lemma_line_end_bounds(s: Seq<char>)
    ensures
        0 <= text::line_end(s) <= s.len(),
        !s.take(text::line_end(s)).contains('\n'),
        text::line_end(s) < s.len() ==> s[text::line_end(s)] == '\n',
    decreases s.len(),
{
    if s.len() > 0 && s[0] != '\n' {
        let rest = s.drop_first();
        lemma_line_end_bounds(rest);
        let end = text::line_end(s);
        assert forall|i: int| 0 <= i < end implies s[i] != '\n' by {
            if i > 0 {
                let head = rest.take(end - 1);
                assert(head.contains(head[i - 1]));
            }
        }
    }
}

/// A text is found in plain UTF-8 as well: of a file that holds the text alone, and no zero byte
/// among the bytes seen first, as many lines are searched as the text has, each of them the line of
/// the text without the carriage returns at its end.
///
/// The text must not begin with the mark character, which would make the file a marked one.
pub proof fn lemma_plain_text_searched(written: Seq<char>, head: Seq<u8>)
    requires
        written.len() == 0 || written[0] != '\u{feff}',
        head.is_prefix_of(encode_utf8(written)),
        head.len() >= 4 || head == encode_utf8(written),
        !head.contains(0u8),
    ensures
        searched_lines(head, encode_utf8(written)).len() == text::lines_of(written).len(),
        forall|i: int|
            0 <= i < text::lines_of(written).len() ==> #[trigger] searched_lines(
                head,
                encode_utf8(written),
            )[i] == text::trimmed(text::lines_of(written)[i]),
{
    encoding::lemma_plain_text_unmarked(written);
    encoding::lemma_head_suffices(head, encode_utf8(written));
    lemma_unmarked_lines(written);
}

proof fn lemma_unmarked_lines(written: Seq<char>)
    ensures
        unmarked_lines(encode_utf8(written)).len() == text::lines_of(written).len(),
        forall|i: int|
            0 <= i < text::lines_of(written).len() ==> #[trigger] unmarked_lines(
                encode_utf8(written),
            )[i] == text::trimmed(text::lines_of(written)[i]),
    decreases written.len(),
{
    let content = encode_utf8(written);
    let lines = text::lines_of(written);
    if written.len() > 0 {
        let end = text::line_end(written);
        let line = written.take(end);
        lemma_line_end_bounds(written);
        lemma_absent_byte(line, 0x0a);
        if end < written.len() {
            let whole = written.take(end + 1);
            let rest = written.skip(end + 1);
            let feed = seq!['\n'];
            assert(whole =~= line + feed);
            assert(written =~= whole + rest);
            lemma_encode_concat(whole, rest);
            lemma_encode_concat(line, feed);
            assert(encode_utf8(feed) =~= seq![0x0au8]) by {
                assert(leading_byte_width_1(0x0a) == 0x0a) by (bit_vector);
                assert(feed.drop_first() =~= Seq::<char>::empty());
                reveal_with_fuel(encode_utf8, 2);
            }
            let n = encode_utf8(line).len() as int;
            assert forall|i: int| 0 <= i < n implies content[i] != 0x0a by {
                assert(content[i] == encode_utf8(line)[i]);
                assert(encode_utf8(line).contains(content[i]));
            }
            assert(content[n] == 0x0a);
            lemma_raw_end(content, n);
            assert(content.take(n + 1) =~= encode_utf8(whole));
            assert(content.skip(n + 1) =~= encode_utf8(rest));
            encode_utf8_valid_utf8(whole);
            encode_utf8_decode_utf8(whole);
            assert(whole.drop_last() =~= line);
            assert(text::trimmed(whole) == text::trimmed(line));
            assert(text::trimmed(text::without_return(line)) == text::trimmed(line));
            lemma_unmarked_lines(rest);
            assert(unmarked_lines(content) =~= seq![text::trimmed(line)] + unmarked_lines(
                encode_utf8(rest),
            ));
            assert(lines =~= seq![text::without_return(line)] + text::lines_of(rest));
            assert forall|i: int| 0 <= i < lines.len() implies #[trigger] unmarked_lines(content)[i]
                == text::trimmed(lines[i]) by {
                if i > 0 {
                    assert(unmarked_lines(content)[i] == unmarked_lines(encode_utf8(rest))[i - 1]);
                    assert(lines[i] == text::lines_of(rest)[i - 1]);
                }
            }
        } else {
            assert(line =~= written);
            encode_utf8_first_scalar(written);
            assert forall|i: int| 0 <= i < content.len() implies content[i] != 0x0a by {
                assert(content.contains(content[i]));
            }
            lemma_raw_end(content, content.len() as int);
            assert(content.take(content.len() as int) =~= content);
            assert(content.skip(content.len() as int) =~= Seq::<u8>::empty());
            assert(raw_lines(Seq::<u8>::empty()) =~= seq![]);
            encode_utf8_valid_utf8(written);
            encode_utf8_decode_utf8(written);
            assert(unmarked_lines(content) =~= seq![text::trimmed(written)]);
        }
    } else {
        assert(raw_lines(content) =~= seq![]);
    }
}

/// The content of a file that holds a text in an encoding, behind the byte order mark of the
/// encoding if it has one.
pub open spec fn file_of(encoding: Encoding, written: Seq<char>) -> Seq<u8> {
    encoding::mark(encoding) + encoding::encoded(encoding, written)
}

/// Whether a file that holds a text in an encoding is taken for what it is, where `head` was seen
/// first: at least four bytes, or the whole file. A text in little-endian UTF-16 must not begin
/// with the zero character, whose bytes would complete the mark to that of UTF-32. Without a mark,
/// the text must not begin with the mark character, and no zero byte may be among the bytes seen.
pub open spec fn is_recognised(encoding: Encoding, written: Seq<char>, head: Seq<u8>) -> bool {
    &&& head.is_prefix_of(file_of(encoding, written))
    &&& head.len() >= 4 || head == file_of(encoding, written)
    &&& encoding is Utf16Le ==> written.len() == 0 || written[0] != '\0'
    &&& encoding is Unmarked ==> written.len() == 0 || written[0] != '\u{feff}'
    &&& encoding is Unmarked ==> !head.contains(0u8)
}

/// Whether no line of a text ends with a carriage return beyond the one of its line ending.
pub open spec fn no_stray_returns(written: Seq<char>) -> bool {
    let lines = text::lines_of(written);
    forall|i: int|
        0 <= i < lines.len() ==> (#[trigger] lines[i]).len() == 0 || lines[i].last() != '\r'
}

/// A text without zero characters and carriage returns meets what plain UTF-8 asks of it: none of
/// its lines ends with a stray carriage return, and none of its bytes is zero.
pub proof fn lemma_ordinary_text(written: Seq<char>, head: Seq<u8>)
    requires
        !written.contains('\0'),
        !written.contains('\r'),
        head.is_prefix_of(encode_utf8(written)),
    ensures
        no_stray_returns(written),
        !head.contains(0u8),
{
    let bytes = encode_utf8(written);
    lemma_absent_byte(written, 0);
    assert forall|i: int| 0 <= i < head.len() implies head[i] != 0 by {
        assert(bytes.subrange(0, head.len() as int)[i] == bytes[i]);
        assert(bytes.contains(bytes[i]));
    }
    lemma_line_chars(written);
    let lines = text::lines_of(written);
    assert forall|i: int| 0 <= i < lines.len() implies (#[trigger] lines[i]).len() == 0
        || lines[i].last() != '\r' by {
        if lines[i].len() > 0 {
            assert(lines[i].contains(lines[i].last()));
        }
    }
}

/// The characters of the lines of a text are characters of the text, and none is a line feed.
proof fn lemma_line_chars(written: Seq<char>)
    ensures
        forall|i: int, c: char|
            0 <= i < text::lines_of(written).len() && #[trigger] text::lines_of(
                written,
            )[i].contains(c) ==> written.contains(c) && c != '\n',
    decreases written.len(),
{
    let lines = text::lines_of(written);
    if written.len() > 0 {
        let end = text::line_end(written);
        lemma_line_end_bounds(written);
        let line = written.take(end);
        if end < written.len() {
            let rest = written.skip(end + 1);
            lemma_line_chars(rest);
            assert forall|i: int, c: char|
                0 <= i < lines.len() && #[trigger] lines[i].contains(c) implies written.contains(c)
                && c != '\n' by {
                if i == 0 {
                    let k = choose|k: int| 0 <= k < lines[0].len() && lines[0][k] == c;
                    assert(line[k] == c);
                    assert(line.contains(c));
                    assert(written[k] == c);
                } else {
                    assert(lines[i] == text::lines_of(rest)[i - 1]);
                    let k = choose|k: int| 0 <= k < rest.len() && rest[k] == c;
                    assert(written[k + end + 1] == c);
                }
            }
        } else {
            assert(line =~= written);
        }
    }
}

proof fn lemma_recognised_lines(encoding: Encoding, written: Seq<char>, head: Seq<u8>)
    requires
        is_recognised(encoding, written, head),
        encoding is Unmarked ==> no_stray_returns(written),
    ensures
        searched_lines(head, file_of(encoding, written)) == text::lines_of(written),
{
    if encoding is Unmarked {
        let lines = text::lines_of(written);
        assert(file_of(encoding, written) =~= encode_utf8(written));
        lemma_plain_text_searched(written, head);
        lemma_line_chars(written);
        assert forall|i: int| 0 <= i < lines.len() implies text::trimmed(#[trigger] lines[i])
            == lines[i] by {
            if lines[i].len() > 0 {
                assert(lines[i].contains(lines[i].last()));
            }
        }
        assert(searched_lines(head, file_of(encoding, written)) =~= lines);
    } else {
        lemma_marked_text_searched(encoding, written, head);
    }
}

/// The encoding of a file does not show: of two files that hold the same text, each in an encoding
/// of its own and taken for what it is, the same lines are searched.
///
/// Where one of the files bears no byte order mark and the other does, no line of the text may end
/// with a stray carriage return, which is taken off in the one file and kept in the other.
pub proof fn lemma_same_lines(
    written: Seq<char>,
    encoding1: Encoding,
    head1: Seq<u8>,
    encoding2: Encoding,
    head2: Seq<u8>,
)
    requires
        is_recognised(encoding1, written, head1),
        is_recognised(encoding2, written, head2),
        (encoding1 is Unmarked) != (encoding2 is Unmarked) ==> no_stray_returns(written),
    ensures
        searched_lines(head1, file_of(encoding1, written)) == searched_lines(
            head2,
            file_of(encoding2, written),
        ),
{
    if encoding1 is Unmarked && encoding2 is Unmarked {
        let file = file_of(encoding1, written);
        assert(file =~= encode_utf8(written));
        lemma_plain_text_searched(written, head1);
        lemma_plain_text_searched(written, head2);
        assert(searched_lines(head1, file) =~= searched_lines(head2, file));
    } else {
        lemma_recognised_lines(encoding1, written, head1);
        lemma_recognised_lines(encoding2, written, head2);
    }
}

/// The same messages are sent for the same text, whatever the encoding of the file that holds it:
/// as many of them, and with the switch on or off throughout, the same ones in the same order.
///
/// Where one of the files bears no byte order mark and the other does, no line of the text may end
/// with a stray carriage return.
pub proof fn lemma_same_messages(
    path: Seq<char>,
    pattern: Seq<char>,
    written: Seq<char>,
    case_sensitive: bool,
    switch: Switch,
    encoding1: Encoding,
    head1: Seq<u8>,
    out1: Seq<Seq<char>>,
    encoding2: Encoding,
    head2: Seq<u8>,
    out2: Seq<Seq<char>>,
)
    requires
        is_recognised(encoding1, written, head1),
        is_recognised(encoding2, written, head2),
        (encoding1 is Unmarked) != (encoding2 is Unmarked) ==> no_stray_returns(written),
        is_report(
            path,
            pattern,
            searched_lines(head1, file_of(encoding1, written)),
            case_sensitive,
            switch,
            out1,
        ),
        is_report(
            path,
            pattern,
            searched_lines(head2, file_of(encoding2, written)),
            case_sensitive,
            switch,
            out2,
        ),
    ensures
        out1.len() == out2.len(),
        !(switch is Turning) ==> out1 == out2,
{
    lemma_same_lines(written, encoding1, head1, encoding2, head2);
    lemma_report_unique(
        path,
        pattern,
        searched_lines(head1, file_of(encoding1, written)),
        case_sensitive,
        switch,
        out1,
        out2,
    );
}

/// How a file is searched: by its mark where it has one; otherwise it is binary exactly where a
/// zero byte is among the bytes seen first, and else it is searched line by line.
pub proof fn lemma_planned(head: Seq<u8>)
    ensures
        !(encoding::detected(head) is Unmarked) ==> planned(head) == Plan::Decode(
            encoding::detected(head),
        ),
        encoding::detected(head) is Unmarked ==> (planned(head) == Plan::Skip <==> exists|i: int|
            0 <= i < head.len() && head[i] == 0),
        encoding::detected(head) is Unmarked ==> (planned(head) == Plan::Lines <==> forall|i: int|
            0 <= i < head.len() ==> head[i] != 0),
{
    if head.contains(0u8) {
        let i = choose|i: int| 0 <= i < head.len() && head[i] == 0u8;
        assert(head[i] == 0);
    }
    if exists|i: int| 0 <= i < head.len() && head[i] == 0 {
        let i = choose|i: int| 0 <= i < head.len() && head[i] == 0;
        assert(head.contains(head[i]));
    }
}

/// The lines of a marked file are those of the text behind the mark, for any bytes that stand
/// there.
pub proof fn lemma_marked_lines(marked: Encoding, body: Seq<u8>, head: Seq<u8>)
    requires
        !(marked is Unmarked),
        marked is Utf16Le ==> !(seq![0u8, 0u8].is_prefix_of(body)),
        head.is_prefix_of(encoding::mark(marked) + body),
        head.len() >= 4 || head == encoding::mark(marked) + body,
    ensures
        searched_lines(head, encoding::mark(marked) + body) == text::lines_of(
            encoding::body_text(marked, body),
        ),
{
    let content = encoding::mark(marked) + body;
    encoding::lemma_mark_detected(marked, body);
    encoding::lemma_head_suffices(head, content);
    assert(content.skip(encoding::mark(marked).len() as int) =~= body);
}

/// The lines of an unmarked file are cut behind each line feed, and each is the text of its bytes
/// without the carriage returns and line feeds at its end.
pub proof fn lemma_unmarked_searched(head: Seq<u8>, content: Seq<u8>)
    requires
        encoding::detected(head) is Unmarked,
        !head.contains(0u8),
    ensures
        searched_lines(head, content).len() == raw_lines(content).len(),
        forall|i: int|
            0 <= i < raw_lines(content).len() ==> {
                let decoded = encoding::utf8_text(raw_lines(content)[i]);
                let line = #[trigger] searched_lines(head, content)[i];
                &&& line.len() <= decoded.len()
                &&& line == decoded.take(line.len() as int)
                &&& forall|k: int|
                    line.len() <= k < decoded.len() ==> #[trigger] decoded[k] == '\r' || decoded[k]
                        == '\n'
                &&& line.len() > 0 ==> line.last() != '\r' && line.last() != '\n'
            },
{
    assert forall|i: int| 0 <= i < raw_lines(content).len() implies {
        let decoded = encoding::utf8_text(raw_lines(content)[i]);
        let line = #[trigger] searched_lines(head, content)[i];
        &&& line.len() <= decoded.len()
        &&& line == decoded.take(line.len() as int)
        &&& forall|k: int|
            line.len() <= k < decoded.len() ==> #[trigger] decoded[k] == '\r' || decoded[k] == '\n'
        &&& line.len() > 0 ==> line.last() != '\r' && line.last() != '\n'
    } by {
        let decoded = encoding::utf8_text(raw_lines(content)[i]);
        text::lemma_trimmed(decoded);
        let line = text::trimmed(decoded);
        if line.len() > 0 {
            assert(line.last() == decoded[line.len() - 1]);
        }
    }
}

proof fn lemma_same_places(a: Seq<int>, b: Seq<int>)
    requires
        forall|j: int, k: int| 0 <= j < k < a.len() ==> a[j] < a[k],
        forall|j: int, k: int| 0 <= j < k < b.len() ==> b[j] < b[k],
        forall|i: int| #![trigger a.contains(i)] #![trigger b.contains(i)] a.contains(i)
            <==> b.contains(i),
    ensures
        a == b,
    decreases a.len(),
{
    if a.len() == 0 {
        if b.len() > 0 {
            assert(b.contains(b[0]));
        }
        assert(a =~= b);
    } else {
        assert(a.contains(a.last()));
        let k = choose|k: int| 0 <= k < b.len() && b[k] == a.last();
        assert(b.contains(b.last()));
        let j = choose|j: int| 0 <= j < a.len() && a[j] == b.last();
        assert(a.last() == b.last());
        let (x, y) = (a.drop_last(), b.drop_last());
        assert forall|i: int| #![trigger x.contains(i)] #![trigger y.contains(i)]
            x.contains(i) <==> y.contains(i) by {
            if x.contains(i) {
                let m = choose|m: int| 0 <= m < x.len() && x[m] == i;
                assert(a[m] == i);
                assert(a.contains(i) && b.contains(i));
                let n = choose|n: int| 0 <= n < b.len() && b[n] == i;
                assert(y[n] == i);
            }
            if y.contains(i) {
                let m = choose|m: int| 0 <= m < y.len() && y[m] == i;
                assert(b[m] == i);
                assert(b.contains(i) && a.contains(i));
                let n = choose|n: int| 0 <= n < a.len() && a[n] == i;
                assert(x[n] == i);
            }
        }
        lemma_same_places(x, y);
        assert(a =~= x.push(a.last()));
        assert(b =~= y.push(b.last()));
    }
}

/// A report has one message for each line with a match, in the order of the lines, and the number
/// in it is that of the line, counted from one. `places` are the lines with a match, in order.
pub proof fn lemma_report_numbers(
    path: Seq<char>,
    pattern: Seq<char>,
    lines: Seq<Seq<char>>,
    case_sensitive: bool,
    switch: Switch,
    places: Seq<int>,
    out: Seq<Seq<char>>,
)
    requires
        forall|j: int, k: int| 0 <= j < k < places.len() ==> places[j] < places[k],
        forall|i: int| #[trigger]
            places.contains(i) <==> 0 <= i < lines.len() && hit::line_matches(
                lines[i],
                pattern,
                case_sensitive,
            ),
    ensures
        is_report(path, pattern, lines, case_sensitive, switch, out) <==> {
            &&& out.len() == places.len()
            &&& forall|k: int|
                0 <= k < out.len() ==> hit::is_hit(
                    path,
                    pattern,
                    (places[k] + 1) as nat,
                    lines[places[k]],
                    case_sensitive,
                    switch,
                    #[trigger] out[k],
                )
        },
{
    let hits = matching_lines(lines, pattern, case_sensitive);
    lemma_matching_lines(lines, pattern, case_sensitive);
    assert forall|i: int| #![trigger hits.contains(i)] #![trigger places.contains(i)]
        hits.contains(i) <==> places.contains(i) by {
        if hits.contains(i) {
            let k = choose|k: int| 0 <= k < hits.len() && hits[k] == i;
            assert(hit::line_matches(lines[hits[k]], pattern, case_sensitive));
        }
        if places.contains(i) {
            assert(hit::line_matches(lines[i], pattern, case_sensitive));
        }
    }
    lemma_same_places(hits, places);
}

/// Marked content is blank exactly where nothing can be read of it: it has no text, and in UTF-8 no
/// byte behind the mark.
pub proof fn lemma_blank_exact(marked: Encoding, content: Seq<u8>)
    requires
        !(marked is Unmarked),
    ensures
        marked is Utf8Bom ==> (is_blank(marked, content) <==> content.len() <= 3),
        !(marked is Utf8Bom) ==> (is_blank(marked, content) <==> {
            ||| content.len() < encoding::mark(marked).len()
            ||| encoding::body_text(
                marked,
                content.skip(encoding::mark(marked).len() as int),
            ).len() == 0
        }),
        is_blank(marked, content) ==> marked_lines(marked, content).len() == 0,
{
    if is_blank(marked, content) {
        lemma_blank(marked, content);
    }
}

/// Where nothing is to be searched, no lines are; and unmarked content that is not binary has lines
/// unless it is empty.
pub proof fn lemma_nothing_to_search(head: Seq<u8>, content: Seq<u8>)
    ensures
        nothing_to_search(head, content) ==> searched_lines(head, content).len() == 0,
        encoding::detected(head) is Unmarked ==> (nothing_to_search(head, content)
            <==> searched_lines(head, content).len() == 0),
{
    lemma_raw_end_bounds(content);
    if let Plan::Decode(found) = planned(head) {
        if is_blank(found, content) {
            lemma_blank(found, content);
        }
    }
}

} // verus!
