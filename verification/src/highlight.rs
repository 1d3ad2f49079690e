//! Cutting a text into matches and what lies between them, and colouring both.

use crate::matching;
use crate::matching::find_pattern;
use crate::paint;
use crate::paint::{Color, Switch};
use crate::search;
use crate::text;
use vstd::prelude::*;
use vstd::string::*;
use vstd::utf8::*;

verus! {

/// A stretch of a text: a match, or what lies before, between or behind the matches.
#[derive(Debug, Clone, Copy)]
pub struct Part<'a> {
    pub hit: bool,
    pub text: &'a str,
}

/// The parts of a list: whether each is a match, and its text.
pub open spec fn parts_view(parts: Seq<Part<'_>>) -> Seq<(bool, Seq<char>)> {
    Seq::new(parts.len(), |i: int| (parts[i].hit, parts[i].text@))
}

/// The stretch of bytes as a part that is no match; an empty stretch is no part.
pub open spec fn plain_part(bytes: Seq<u8>) -> Seq<(bool, Seq<char>)> {
    if bytes.len() == 0 {
        seq![]
    } else {
        seq![(false, decode_utf8(bytes))]
    }
}

/// The parts of a text: the first match, what lies before it, and then the parts of what lies
/// behind it.
pub open spec fn parts_of(bytes: Seq<u8>, pat: Seq<u8>, case_sensitive: bool) -> Seq<
    (bool, Seq<char>),
>
    decreases bytes.len(),
{
    match matching::first_match(bytes, pat, case_sensitive) {
        Some(p) if 0 <= p && 0 < pat.len() && p + pat.len() <= bytes.len() => {
            plain_part(bytes.take(p)) + seq![
                (true, decode_utf8(bytes.subrange(p, p + pat.len()))),
            ] + parts_of(bytes.skip(p + pat.len()), pat, case_sensitive)
        },
        _ => plain_part(bytes),
    }
}

/// Cuts a text into its matches, from left to right and without overlap, and what lies between.
pub fn split_matches<'a>(text: &'a str, pattern: &str, case_sensitive: bool) -> (r: Vec<Part<'a>>)
    requires
        pattern@.len() > 0,
    ensures
        parts_view(r@) == parts_of(text.spec_bytes(), pattern.spec_bytes(), case_sensitive),
{
    let ghost pat = pattern.spec_bytes();
    let ghost all = parts_of(text.spec_bytes(), pat, case_sensitive);
    let width: usize = pattern.as_bytes().len();
    proof {
        encode_utf8_valid_utf8(pattern@);
        encode_utf8_first_scalar(pattern@);
    }
    let mut parts: Vec<Part<'a>> = Vec::new();
    let mut rest: &'a str = text;
    assert(parts_view(parts@) + all =~= all);
    loop
        invariant
            pat == pattern.spec_bytes(),
            valid_utf8(pat),
            width == pat.len() > 0,
            all == parts_of(text.spec_bytes(), pat, case_sensitive),
            all == parts_view(parts@) + parts_of(rest.spec_bytes(), pat, case_sensitive),
        decreases rest.spec_bytes().len(),
    {
        let ghost bytes = rest.spec_bytes();
        let ghost before = parts_view(parts@);
        let end: usize = rest.as_bytes().len();
        proof {
            encode_utf8_valid_utf8(rest@);
            encode_utf8_decode_utf8(rest@);
            is_char_boundary_start_end_of_seq(bytes);
        }
        match find_pattern(rest, pattern, case_sensitive) {
            Some(pos) => {
                proof {
                    matching::lemma_match_on_boundaries(bytes, pat, case_sensitive, pos as int);
                }
                if pos > 0 {
                    parts.push(Part { hit: false, text: text::slice(rest, 0, pos) });
                }
                assert(bytes.take(pos as int) =~= bytes.subrange(0, pos as int));
                assert(parts_view(parts@) =~= before + plain_part(bytes.take(pos as int)));
                let ghost middle = parts_view(parts@);
                parts.push(Part { hit: true, text: text::slice(rest, pos, pos + width) });
                let ghost hit = decode_utf8(bytes.subrange(pos as int, pos + width));
                assert(parts_view(parts@) =~= middle + seq![(true, hit)]);
                rest = text::slice(rest, pos + width, end);
                assert(bytes.skip(pos + width) =~= bytes.subrange(pos + width, end as int));
                assert(all =~= parts_view(parts@) + parts_of(
                    rest.spec_bytes(),
                    pat,
                    case_sensitive,
                ));
            },
            None => {
                if end > 0 {
                    parts.push(Part { hit: false, text: rest });
                }
                assert(parts_view(parts@) =~= before + plain_part(bytes));
                return parts;
            },
        }
    }
}

/// The texts of the parts, without whether each is a match.
pub open spec fn part_texts(parts: Seq<(bool, Seq<char>)>) -> Seq<Seq<char>> {
    Seq::new(parts.len(), |i: int| parts[i].1)
}

proof fn lemma_split_at_match(bytes: Seq<u8>, pat: Seq<u8>, case_sensitive: bool, p: int)
    requires
        valid_utf8(bytes),
        valid_utf8(pat),
        pat.len() > 0,
        matching::matches_at(bytes, pat, case_sensitive, p),
    ensures
        valid_utf8(bytes.take(p)),
        valid_utf8(bytes.subrange(p, p + pat.len())),
        valid_utf8(bytes.skip(p + pat.len())),
        decode_utf8(bytes) == decode_utf8(bytes.take(p)) + decode_utf8(
            bytes.subrange(p, p + pat.len()),
        ) + decode_utf8(bytes.skip(p + pat.len())),
{
    let end = p + pat.len();
    let head = bytes.subrange(0, end);
    matching::lemma_match_on_boundaries(bytes, pat, case_sensitive, p);
    matching::lemma_boundary_prefix(bytes, p, end);
    valid_utf8_split(bytes, end);
    decode_utf8_split(bytes, end);
    valid_utf8_split(head, p);
    decode_utf8_split(head, p);
    assert(head.subrange(0, p) =~= bytes.take(p));
    assert(head.subrange(p, head.len() as int) =~= bytes.subrange(p, end));
    assert(bytes.subrange(end, bytes.len() as int) =~= bytes.skip(end));
}

/// Cutting loses nothing and adds nothing: the parts of a text, put together, are the text.
pub proof fn lemma_parts_cover(bytes: Seq<u8>, pat: Seq<u8>, case_sensitive: bool)
    requires
        valid_utf8(bytes),
        valid_utf8(pat),
        pat.len() > 0,
    ensures
        part_texts(parts_of(bytes, pat, case_sensitive)).flatten() == decode_utf8(bytes),
    decreases bytes.len(),
{
    let parts = parts_of(bytes, pat, case_sensitive);
    matching::lemma_first_match_spec(bytes, pat, case_sensitive);
    match matching::first_match(bytes, pat, case_sensitive) {
        Some(p) => {
            let end = p + pat.len();
            let rest = parts_of(bytes.skip(end), pat, case_sensitive);
            let hit = decode_utf8(bytes.subrange(p, end));
            lemma_split_at_match(bytes, pat, case_sensitive, p);
            lemma_parts_cover(bytes.skip(end), pat, case_sensitive);
            let tail = seq![hit] + part_texts(rest);
            assert(tail.drop_first() =~= part_texts(rest));
            assert(tail.flatten() =~= hit + part_texts(rest).flatten());
            if p == 0 {
                assert(bytes.take(p) =~= Seq::<u8>::empty());
                assert(part_texts(parts) =~= tail);
            } else {
                assert(part_texts(parts) =~= seq![decode_utf8(bytes.take(p))] + tail);
                assert(part_texts(parts).drop_first() =~= tail);
            }
            assert(part_texts(parts).flatten() =~= decode_utf8(bytes.take(p)) + tail.flatten());
            assert(part_texts(parts).flatten() =~= decode_utf8(bytes));
        },
        None => {
            if bytes.len() > 0 {
                part_texts(parts).lemma_flatten_one_element();
            }
        },
    }
}

/// The matches are marked, and all of them: a part that counts as a match is the keyword, up to
/// case where case does not count, and the keyword occurs in no other part.
pub proof fn lemma_parts_marked(
    bytes: Seq<u8>,
    pat: Seq<u8>,
    case_sensitive: bool,
    i: int,
)
    requires
        valid_utf8(bytes),
        valid_utf8(pat),
        pat.len() > 0,
        0 <= i < parts_of(bytes, pat, case_sensitive).len(),
    ensures
        ({
            let part = parts_of(bytes, pat, case_sensitive)[i];
            let own = encode_utf8(part.1);
            &&& part.0 ==> own.len() == pat.len() && matching::matches_at(
                own,
                pat,
                case_sensitive,
                0,
            )
            &&& !part.0 ==> own.len() > 0 && matching::first_match(own, pat, case_sensitive) is None
        }),
    decreases bytes.len(),
{
    let parts = parts_of(bytes, pat, case_sensitive);
    matching::lemma_first_match_spec(bytes, pat, case_sensitive);
    match matching::first_match(bytes, pat, case_sensitive) {
        Some(p) => {
            let end = p + pat.len();
            let before = plain_part(bytes.take(p));
            lemma_split_at_match(bytes, pat, case_sensitive, p);
            if i < before.len() {
                let own = bytes.take(p);
                decode_utf8_encode_utf8(own);
                assert forall|j: int| !#[trigger] matching::matches_at(
                    own,
                    pat,
                    case_sensitive,
                    j,
                ) by {
                    if matching::matches_at(own, pat, case_sensitive, j) {
                        assert forall|k: int| 0 <= k < pat.len() implies matching::same_byte(
                            bytes[j + k],
                            #[trigger] pat[k],
                            case_sensitive,
                        ) by {
                            assert(own[j + k] == bytes[j + k]);
                        }
                        assert(matching::matches_at(bytes, pat, case_sensitive, j));
                    }
                }
            } else if i == before.len() {
                let own = bytes.subrange(p, end);
                decode_utf8_encode_utf8(own);
                assert forall|k: int| 0 <= k < pat.len() implies matching::same_byte(
                    own[0 + k],
                    #[trigger] pat[k],
                    case_sensitive,
                ) by {
                    assert(own[k] == bytes[p + k]);
                }
            } else {
                lemma_parts_marked(bytes.skip(end), pat, case_sensitive, i - before.len() - 1);
            }
        },
        None => {
            decode_utf8_encode_utf8(bytes);
        },
    }
}

/// The escape sequence that switches the style of a part on.
pub open spec fn part_code(hit: bool, base: Color) -> Seq<char> {
    if hit {
        paint::match_code()
    } else {
        paint::color_code(base)
    }
}

/// Whether `pieces` holds each part as painting leaves it, in the order of the parts.
pub open spec fn are_paintings(
    parts: Seq<(bool, Seq<char>)>,
    base: Color,
    switch: Switch,
    pieces: Seq<Seq<char>>,
) -> bool {
    &&& pieces.len() == parts.len()
    &&& forall|i: int|
        0 <= i < parts.len() ==> paint::is_painting(
            parts[i].1,
            part_code(parts[i].0, base),
            switch,
            #[trigger] pieces[i],
        )
}

/// Whether `out` is a text with its matches in the style of a match and the rest in a base colour.
pub open spec fn is_highlighting(
    text: Seq<u8>,
    pat: Seq<u8>,
    base: Color,
    case_sensitive: bool,
    switch: Switch,
    out: Seq<char>,
) -> bool {
    exists|pieces: Seq<Seq<char>>|
        #![trigger pieces.flatten()]
        are_paintings(parts_of(text, pat, case_sensitive), base, switch, pieces) && out
            == pieces.flatten()
}

/// With the switch on or off throughout, a text is highlighted in one way.
pub proof fn lemma_highlighting_unique(
    text: Seq<u8>,
    pat: Seq<u8>,
    base: Color,
    case_sensitive: bool,
    switch: Switch,
    a: Seq<char>,
    b: Seq<char>,
)
    requires
        !(switch is Turning),
        is_highlighting(text, pat, base, case_sensitive, switch, a),
        is_highlighting(text, pat, base, case_sensitive, switch, b),
    ensures
        a == b,
{
    let parts = parts_of(text, pat, case_sensitive);
    let p = choose|pieces: Seq<Seq<char>>|
        #![trigger pieces.flatten()]
        are_paintings(parts, base, switch, pieces) && a == pieces.flatten();
    let q = choose|pieces: Seq<Seq<char>>|
        #![trigger pieces.flatten()]
        are_paintings(parts, base, switch, pieces) && b == pieces.flatten();
    assert forall|i: int| 0 <= i < parts.len() implies p[i] == q[i] by {
        assert(paint::is_painting(parts[i].1, part_code(parts[i].0, base), switch, p[i]));
        assert(paint::is_painting(parts[i].1, part_code(parts[i].0, base), switch, q[i]));
    }
    assert(p =~= q);
}

/// What a steady switch makes of a text, a switch that may turn can make of it too.
pub proof fn lemma_steady_highlighting(
    text: Seq<u8>,
    pat: Seq<u8>,
    base: Color,
    case_sensitive: bool,
    switch: Switch,
    out: Seq<char>,
)
    requires
        is_highlighting(text, pat, base, case_sensitive, switch, out),
    ensures
        is_highlighting(text, pat, base, case_sensitive, Switch::Turning, out),
{
    let parts = parts_of(text, pat, case_sensitive);
    let pieces = choose|pieces: Seq<Seq<char>>|
        #![trigger pieces.flatten()]
        are_paintings(parts, base, switch, pieces) && out == pieces.flatten();
    assert(are_paintings(parts, base, Switch::Turning, pieces));
}

/// Without colours a highlighted text is the text itself.
pub proof fn lemma_bare_highlighting(
    text: Seq<u8>,
    pat: Seq<u8>,
    base: Color,
    case_sensitive: bool,
    out: Seq<char>,
)
    requires
        valid_utf8(text),
        valid_utf8(pat),
        pat.len() > 0,
    ensures
        is_highlighting(text, pat, base, case_sensitive, Switch::Off, out) <==> out == decode_utf8(
            text,
        ),
{
    lemma_parts_cover(text, pat, case_sensitive);
    let pieces = part_texts(parts_of(text, pat, case_sensitive));
    assert(decode_utf8(text) == pieces.flatten());
    assert(are_paintings(parts_of(text, pat, case_sensitive), base, Switch::Off, pieces));
    if is_highlighting(text, pat, base, case_sensitive, Switch::Off, out) {
        lemma_highlighting_unique(
            text,
            pat,
            base,
            case_sensitive,
            Switch::Off,
            out,
            decode_utf8(text),
        );
    }
}

/// A text that holds the keyword has a part that is shown as a match.
pub proof fn lemma_match_shown(bytes: Seq<u8>, pat: Seq<u8>, case_sensitive: bool)
    requires
        pat.len() > 0,
        matching::first_match(bytes, pat, case_sensitive) is Some,
    ensures
        exists|i: int|
            0 <= i < parts_of(bytes, pat, case_sensitive).len() && (#[trigger] parts_of(
                bytes,
                pat,
                case_sensitive,
            )[i]).0,
{
    matching::lemma_first_match_spec(bytes, pat, case_sensitive);
    let p = matching::first_match(bytes, pat, case_sensitive)->0;
    let i = plain_part(bytes.take(p)).len() as int;
    assert(parts_of(bytes, pat, case_sensitive)[i].0);
}

/// Puts the pieces of a text together.
pub fn join(pieces: &Vec<String>) -> (r: String)
    ensures
        r@ == text::texts(pieces@).flatten(),
{
    let ghost all = text::texts(pieces@);
    let mut out: String = String::new();
    let mut i: usize = 0;
    assert(all.take(0) =~= Seq::<Seq<char>>::empty());
    while i < pieces.len()
        invariant
            all == text::texts(pieces@),
            i <= pieces@.len(),
            out@ == all.take(i as int).flatten(),
        decreases pieces@.len() - i,
    {
        out.append(pieces[i].as_str());
        proof {
            all.take(i as int).lemma_flatten_push(all[i as int]);
            assert(all.take(i + 1) =~= all.take(i as int).push(all[i as int]));
        }
        i = i + 1;
    }
    assert(all.take(i as int) =~= all);
    out
}

/// The text with its matches in the style of a match, and the rest in the colour `base`.
///
/// An empty keyword would be found at one place without end.
pub fn highlight_all(text: &str, pattern: &str, base: Color, case_sensitive: bool) -> (r: String)
    requires
        pattern@.len() > 0,
    ensures
        is_highlighting(
            text.spec_bytes(),
            pattern.spec_bytes(),
            base,
            case_sensitive,
            paint::process_switch(),
            r@,
        ),
        is_highlighting(
            text.spec_bytes(),
            pattern.spec_bytes(),
            base,
            case_sensitive,
            Switch::Turning,
            r@,
        ),
{
    let parts: Vec<Part<'_>> = split_matches(text, pattern, case_sensitive);
    let ghost all = parts_view(parts@);
    let mut pieces: Vec<String> = Vec::new();
    let mut i: usize = 0;
    while i < parts.len()
        invariant
            all == parts_view(parts@),
            i <= parts@.len(),
            are_paintings(all.take(i as int), base, paint::process_switch(), text::texts(pieces@)),
        decreases parts@.len() - i,
    {
        let part: Part<'_> = parts[i];
        let piece: String = if part.hit {
            paint::paint_match(part.text)
        } else {
            paint::paint(part.text, base)
        };
        let ghost old_pieces = text::texts(pieces@);
        pieces.push(piece);
        proof {
            let now = text::texts(pieces@);
            assert(now =~= old_pieces.push(piece@));
            assert forall|j: int| 0 <= j < i + 1 implies paint::is_painting(
                all.take(i + 1)[j].1,
                part_code(all.take(i + 1)[j].0, base),
                paint::process_switch(),
                #[trigger] now[j],
            ) by {
                if j < i {
                    assert(now[j] == old_pieces[j]);
                    assert(all.take(i as int)[j] == all.take(i + 1)[j]);
                }
            }
        }
        i = i + 1;
    }
    assert(all.take(i as int) =~= all);
    let out: String = join(&pieces);
    proof {
        lemma_steady_highlighting(
            text.spec_bytes(),
            pattern.spec_bytes(),
            base,
            case_sensitive,
            paint::process_switch(),
            out@,
        );
    }
    out
}

/// Where a text is cut: at its first match. What stands before it is a part that is no match,
/// unless it is empty, the match is one, and then come the parts of what stands behind it. A text
/// without a match is one part, unless it is empty.
pub proof fn lemma_parts_step(
    before: Seq<char>,
    matched: Seq<char>,
    behind: Seq<char>,
    pat: Seq<u8>,
    case_sensitive: bool,
)
    requires
        pat.len() > 0,
    ensures
        matching::first_match(encode_utf8(before), pat, case_sensitive) is None ==> parts_of(
            encode_utf8(before),
            pat,
            case_sensitive,
        ) == if before.len() == 0 {
            seq![]
        } else {
            seq![(false, before)]
        },
        matching::first_match(encode_utf8(before + matched + behind), pat, case_sensitive) == Some(
            encode_utf8(before).len() as int,
        ) && encode_utf8(matched).len() == pat.len() ==> parts_of(
            encode_utf8(before + matched + behind),
            pat,
            case_sensitive,
        ) == (if before.len() == 0 {
            seq![]
        } else {
            seq![(false, before)]
        }) + seq![(true, matched)] + parts_of(encode_utf8(behind), pat, case_sensitive),
{
    let bytes = encode_utf8(before + matched + behind);
    let p = encode_utf8(before).len() as int;
    search::lemma_encode_concat(before + matched, behind);
    search::lemma_encode_concat(before, matched);
    encode_utf8_decode_utf8(before);
    encode_utf8_decode_utf8(matched);
    if before.len() > 0 {
        encode_utf8_first_scalar(before);
    }
    assert(bytes.take(p) =~= encode_utf8(before));
    if encode_utf8(matched).len() == pat.len() {
        assert(bytes.subrange(p, p + pat.len()) =~= encode_utf8(matched));
        assert(bytes.skip(p + pat.len()) =~= encode_utf8(behind));
    }
}

/// Nothing is cut but at a match: of two parts next to each other, one is a match.
pub proof fn lemma_parts_alternate(bytes: Seq<u8>, pat: Seq<u8>, case_sensitive: bool, i: int)
    requires
        pat.len() > 0,
        0 <= i < parts_of(bytes, pat, case_sensitive).len() - 1,
    ensures
        parts_of(bytes, pat, case_sensitive)[i].0 || parts_of(bytes, pat, case_sensitive)[i + 1].0,
    decreases bytes.len(),
{
    matching::lemma_first_match_spec(bytes, pat, case_sensitive);
    if let Some(p) = matching::first_match(bytes, pat, case_sensitive) {
        let before = plain_part(bytes.take(p));
        let rest = bytes.skip(p + pat.len());
        if i > before.len() {
            lemma_parts_alternate(rest, pat, case_sensitive, i - before.len() - 1);
        }
    }
}

/// With colours, a highlighted text is its parts in order, each between an escape sequence and a
/// reset: bold and red for a match, the base colour for the rest.
pub proof fn lemma_coloured_highlighting(
    text: Seq<u8>,
    pat: Seq<u8>,
    base: Color,
    case_sensitive: bool,
    out: Seq<char>,
)
    ensures
        is_highlighting(text, pat, base, case_sensitive, Switch::On, out) <==> out == Seq::new(
            parts_of(text, pat, case_sensitive).len(),
            |i: int|
                {
                    let part = parts_of(text, pat, case_sensitive)[i];
                    let code = if part.0 {
                        seq!['\u{1b}', '[', '1', ';', '3', '1', 'm']
                    } else {
                        match base {
                            Color::Cyan => seq!['\u{1b}', '[', '3', '6', 'm'],
                            Color::BrightBlue => seq!['\u{1b}', '[', '9', '4', 'm'],
                            Color::Yellow => seq!['\u{1b}', '[', '3', '3', 'm'],
                        }
                    };
                    code + paint::reopened(part.1, code) + seq!['\u{1b}', '[', '0', 'm']
                },
        ).flatten(),
{
    let parts = parts_of(text, pat, case_sensitive);
    let pieces = Seq::new(
        parts_of(text, pat, case_sensitive).len(),
        |i: int|
            {
                let part = parts_of(text, pat, case_sensitive)[i];
                let code = if part.0 {
                    seq!['\u{1b}', '[', '1', ';', '3', '1', 'm']
                } else {
                    match base {
                        Color::Cyan => seq!['\u{1b}', '[', '3', '6', 'm'],
                        Color::BrightBlue => seq!['\u{1b}', '[', '9', '4', 'm'],
                        Color::Yellow => seq!['\u{1b}', '[', '3', '3', 'm'],
                    }
                };
                code + paint::reopened(part.1, code) + seq!['\u{1b}', '[', '0', 'm']
            },
    );
    assert(are_paintings(parts, base, Switch::On, pieces));
    assert(is_highlighting(text, pat, base, case_sensitive, Switch::On, pieces.flatten()));
    if is_highlighting(text, pat, base, case_sensitive, Switch::On, out) {
        lemma_highlighting_unique(
            text,
            pat,
            base,
            case_sensitive,
            Switch::On,
            out,
            pieces.flatten(),
        );
    }
}

/// The view of a list of parts has each part as it is, one for one.
pub proof fn lemma_parts_view(parts: Seq<Part<'_>>, part: Part<'_>)
    ensures
        parts_view(seq![]) == Seq::<(bool, Seq<char>)>::empty(),
        parts_view(parts.push(part)) == parts_view(parts).push((part.hit, part.text@)),
{
    assert(parts_view(seq![]) =~= Seq::<(bool, Seq<char>)>::empty());
    assert(parts_view(parts.push(part)) =~= parts_view(parts).push((part.hit, part.text@)));
}

} // verus!
