//! Text encodings that a byte order mark announces, and turning such content into text.

use vstd::prelude::*;
use vstd::utf8::*;

verus! {

/// How the bytes of a file stand for text.
#[derive(Debug, PartialEq, Eq, Clone, Copy, Structural)]
pub enum Encoding {
    Utf8Bom,
    Utf16Le,
    Utf16Be,
    Utf32Le,
    Utf32Be,
    Unmarked,
}

/// The byte order mark that announces an encoding.
pub open spec fn mark(encoding: Encoding) -> Seq<u8> {
    match encoding {
        Encoding::Utf8Bom => seq![0xefu8, 0xbbu8, 0xbfu8],
        Encoding::Utf16Le => seq![0xffu8, 0xfeu8],
        Encoding::Utf16Be => seq![0xfeu8, 0xffu8],
        Encoding::Utf32Le => seq![0xffu8, 0xfeu8, 0x00u8, 0x00u8],
        Encoding::Utf32Be => seq![0x00u8, 0x00u8, 0xfeu8, 0xffu8],
        Encoding::Unmarked => seq![],
    }
}

impl Encoding {
    /// The number of bytes that the byte order mark takes.
    pub fn bom_len(self) -> (n: usize)
        ensures
            n == mark(self).len(),
    {
        match self {
            Encoding::Utf8Bom => 3,
            Encoding::Utf16Le | Encoding::Utf16Be => 2,
            Encoding::Utf32Le | Encoding::Utf32Be => 4,
            Encoding::Unmarked => 0,
        }
    }
}

/// The encoding that the first bytes of a file announce. The mark of little-endian UTF-32 begins
/// with that of little-endian UTF-16 and takes precedence.
pub open spec fn detected(bytes: Seq<u8>) -> Encoding {
    if mark(Encoding::Utf8Bom).is_prefix_of(bytes) {
        Encoding::Utf8Bom
    } else if mark(Encoding::Utf32Be).is_prefix_of(bytes) {
        Encoding::Utf32Be
    } else if mark(Encoding::Utf32Le).is_prefix_of(bytes) {
        Encoding::Utf32Le
    } else if mark(Encoding::Utf16Le).is_prefix_of(bytes) {
        Encoding::Utf16Le
    } else if mark(Encoding::Utf16Be).is_prefix_of(bytes) {
        Encoding::Utf16Be
    } else {
        Encoding::Unmarked
    }
}

/// Whether `bytes` begins with `prefix`.
fn starts_with(bytes: &[u8], prefix: &[u8]) -> (r: bool)
    ensures
        r == prefix@.is_prefix_of(bytes@),
{
    if bytes.len() < prefix.len() {
        return false;
    }
    let mut i: usize = 0;
    while i < prefix.len()
        invariant
            i <= prefix@.len() <= bytes@.len(),
            forall|j: int| 0 <= j < i ==> bytes@[j] == prefix@[j],
        decreases prefix@.len() - i,
    {
        if bytes[i] != prefix[i] {
            assert(bytes@.subrange(0, prefix@.len() as int)[i as int] != prefix@[i as int]);
            return false;
        }
        i = i + 1;
    }
    assert(prefix@ =~= bytes@.subrange(0, prefix@.len() as int));
    true
}

/// The encoding that the first bytes of a file announce.
pub fn detect_encoding(bytes: &[u8]) -> (r: Encoding)
    ensures
        r == detected(bytes@),
        mark(r).is_prefix_of(bytes@),
        forall|e: Encoding| #[trigger]
            mark(e).is_prefix_of(bytes@) ==> mark(e).len() <= mark(r).len(),
{
    let r: Encoding = if starts_with(bytes, &[0xef, 0xbb, 0xbf]) {
        Encoding::Utf8Bom
    } else if starts_with(bytes, &[0x00, 0x00, 0xfe, 0xff]) {
        Encoding::Utf32Be
    } else if starts_with(bytes, &[0xff, 0xfe, 0x00, 0x00]) {
        Encoding::Utf32Le
    } else if starts_with(bytes, &[0xff, 0xfe]) {
        Encoding::Utf16Le
    } else if starts_with(bytes, &[0xfe, 0xff]) {
        Encoding::Utf16Be
    } else {
        Encoding::Unmarked
    };
    r
}

/// `char::from_u32` gives the character of a code point; it gives none for a surrogate or a number
/// above the last code point.
pub assume_specification[ char::from_u32 ](i: u32) -> (r: Option<char>)
    ensures
        is_scalar(i) ==> r == Some(i as char),
        !is_scalar(i) ==> r is None,
;

/// The character that stands for what cannot be decoded.
pub open spec fn replacement() -> char {
    '\u{fffd}'
}

/// The 16-bit number that two bytes stand for.
pub open spec fn unit(first: u8, second: u8, big_endian: bool) -> u16 {
    if big_endian {
        (first * 0x100 + second) as u16
    } else {
        (second * 0x100 + first) as u16
    }
}

/// The 16-bit numbers of a byte sequence; an odd last byte belongs to none.
pub open spec fn units(bytes: Seq<u8>, big_endian: bool) -> Seq<u16> {
    Seq::new(bytes.len() / 2, |i: int| unit(bytes[2 * i], bytes[2 * i + 1], big_endian))
}

/// A number that opens a surrogate pair.
pub open spec fn is_lead(u: u16) -> bool {
    0xd800 <= u <= 0xdbff
}

/// A number that closes a surrogate pair.
pub open spec fn is_trail(u: u16) -> bool {
    0xdc00 <= u <= 0xdfff
}

/// The code point of a surrogate pair.
pub open spec fn pair_code(lead: u16, trail: u16) -> u32 {
    (0x10000 + (lead - 0xd800) * 0x400 + (trail - 0xdc00)) as u32
}

/// The text of a sequence of UTF-16 numbers, with the replacement character for each surrogate
/// that has no partner.
pub open spec fn utf16_text(u: Seq<u16>) -> Seq<char>
    decreases u.len(),
{
    if u.len() == 0 {
        seq![]
    } else if !is_lead(u[0]) && !is_trail(u[0]) {
        seq![u[0] as char] + utf16_text(u.skip(1))
    } else if is_lead(u[0]) && u.len() >= 2 && is_trail(u[1]) {
        seq![pair_code(u[0], u[1]) as char] + utf16_text(u.skip(2))
    } else {
        seq![replacement()] + utf16_text(u.skip(1))
    }
}

/// The code point that four bytes stand for.
pub open spec fn code(b0: u8, b1: u8, b2: u8, b3: u8, big_endian: bool) -> u32 {
    if big_endian {
        (b0 * 0x1000000 + b1 * 0x10000 + b2 * 0x100 + b3) as u32
    } else {
        (b3 * 0x1000000 + b2 * 0x10000 + b1 * 0x100 + b0) as u32
    }
}

/// The 32-bit numbers of a byte sequence; an incomplete rest belongs to none.
pub open spec fn codes(bytes: Seq<u8>, big_endian: bool) -> Seq<u32> {
    Seq::new(
        bytes.len() / 4,
        |i: int|
            code(bytes[4 * i], bytes[4 * i + 1], bytes[4 * i + 2], bytes[4 * i + 3], big_endian),
    )
}

/// The character of a code point, or the replacement character where there is none.
pub open spec fn scalar_or_replacement(c: u32) -> char {
    if is_scalar(c) {
        c as char
    } else {
        replacement()
    }
}

/// The text of a sequence of code points.
pub open spec fn utf32_text(c: Seq<u32>) -> Seq<char> {
    Seq::new(c.len(), |i: int| scalar_or_replacement(c[i]))
}

fn read_unit(bytes: &[u8], at: usize, big_endian: bool) -> (r: u16)
    requires
        2 * at + 1 < bytes@.len(),
    ensures
        r == units(bytes@, big_endian)[at as int],
{
    assert(bytes@.len() == bytes.len());
    let first: u16 = bytes[2 * at] as u16;
    let second: u16 = bytes[2 * at + 1] as u16;
    if big_endian {
        first * 0x100 + second
    } else {
        second * 0x100 + first
    }
}

/// Decodes UTF-16 content. A surrogate without its partner becomes the replacement character, and
/// an odd last byte is left out.
pub fn decode_utf16(bytes: &[u8], big_endian: bool) -> (r: String)
    ensures
        r@ == utf16_text(units(bytes@, big_endian)),
{
    let ghost all = units(bytes@, big_endian);
    let count: usize = bytes.len() / 2;
    let mut out: String = String::new();
    let mut i: usize = 0;
    assert(all.skip(0) =~= all);
    assert(out@ + utf16_text(all) =~= utf16_text(all));
    while i < count
        invariant
            all == units(bytes@, big_endian),
            count == bytes@.len() / 2,
            i <= count,
            utf16_text(all) == out@ + utf16_text(all.skip(i as int)),
        decreases count - i,
    {
        let ghost rest = all.skip(i as int);
        let ghost before = out@;
        let u: u16 = read_unit(bytes, i, big_endian);
        let mut used: usize = 1;
        let mut c: char = '\u{fffd}';
        if u < 0xd800 || u > 0xdfff {
            c = decode_scalar(u as u32);
        } else if u <= 0xdbff && i + 1 < count {
            let v: u16 = read_unit(bytes, i + 1, big_endian);
            if 0xdc00 <= v && v <= 0xdfff {
                c = decode_scalar(0x10000 + (u as u32 - 0xd800) * 0x400 + (v as u32 - 0xdc00));
                used = 2;
            }
        }
        out.push(c);
        i = i + used;
        proof {
            assert(rest.skip(used as int) =~= all.skip(i as int));
            assert(utf16_text(rest) == seq![c] + utf16_text(rest.skip(used as int)));
            assert(before + (seq![c] + utf16_text(rest.skip(used as int))) =~= out@ + utf16_text(
                rest.skip(used as int),
            ));
        }
    }
    assert(all.skip(count as int) =~= Seq::<u16>::empty());
    assert(out@ + utf16_text(all.skip(count as int)) =~= out@);
    out
}

/// The character of a code point, or the replacement character where there is none.
fn decode_scalar(c: u32) -> (r: char)
    ensures
        r == scalar_or_replacement(c),
{
    match char::from_u32(c) {
        Some(r) => r,
        None => '\u{fffd}',
    }
}

/// Decodes UTF-32 content. A number that is no code point of a character becomes the replacement
/// character, and an incomplete rest is left out.
pub fn decode_utf32(bytes: &[u8], big_endian: bool) -> (r: String)
    ensures
        r@ == utf32_text(codes(bytes@, big_endian)),
{
    let ghost all = utf32_text(codes(bytes@, big_endian));
    let count: usize = bytes.len() / 4;
    let mut out: String = String::new();
    let mut i: usize = 0;
    assert(out@ =~= all.take(0));
    while i < count
        invariant
            all == utf32_text(codes(bytes@, big_endian)),
            count == bytes@.len() / 4,
            i <= count,
            out@ == all.take(i as int),
        decreases count - i,
    {
        assert(bytes@.len() == bytes.len());
        let b0: u32 = bytes[4 * i] as u32;
        let b1: u32 = bytes[4 * i + 1] as u32;
        let b2: u32 = bytes[4 * i + 2] as u32;
        let b3: u32 = bytes[4 * i + 3] as u32;
        let c: u32 = if big_endian {
            b0 * 0x1000000 + b1 * 0x10000 + b2 * 0x100 + b3
        } else {
            b3 * 0x1000000 + b2 * 0x10000 + b1 * 0x100 + b0
        };
        out.push(decode_scalar(c));
        assert(all.take(i + 1) =~= all.take(i as int).push(all[i as int]));
        i = i + 1;
    }
    assert(all.take(count as int) =~= all);
    out
}

/// The text that `String::from_utf8_lossy` makes of a byte sequence that is not valid UTF-8.
pub uninterp spec fn repaired_text(bytes: Seq<u8>) -> Seq<char>;

/// The text of a byte sequence in UTF-8, repaired where the bytes are not valid.
pub open spec fn utf8_text(bytes: Seq<u8>) -> Seq<char> {
    if valid_utf8(bytes) {
        decode_utf8(bytes)
    } else {
        repaired_text(bytes)
    }
}

/// The number of line feeds in a text.
pub open spec fn feeds(text: Seq<char>) -> nat {
    text.filter(|c: char| c == '\n').len()
}

/// The number of line feeds in a byte sequence.
pub open spec fn byte_feeds(bytes: Seq<u8>) -> nat {
    bytes.filter(|b: u8| b == 0x0a).len()
}

/// Whether `part` stands in a text at offset `p`.
pub open spec fn stands_at(text: Seq<char>, part: Seq<char>, p: int) -> bool {
    &&& 0 <= p
    &&& p + part.len() <= text.len()
    &&& text.subrange(p, p + part.len()) == part
}

/// Whether a text holds the text of the bytes from `i` to `j`: at its beginning or its end where
/// the bytes are at theirs, and behind as many line feeds.
pub open spec fn keeps_stretch(bytes: Seq<u8>, text: Seq<char>, i: int, j: int) -> bool {
    let part = decode_utf8(bytes.subrange(i, j));
    exists|p: int|
        {
            &&& #[trigger] stands_at(text, part, p)
            &&& i == 0 ==> p == 0
            &&& j == bytes.len() ==> p + part.len() == text.len()
            &&& feeds(text.take(p)) == byte_feeds(bytes.take(i))
        }
}

/// Whether a text holds the text of every stretch of the bytes that is valid UTF-8, so that invalid
/// bytes hide nothing that stands before, between or behind them.
pub open spec fn keeps_valid_stretches(bytes: Seq<u8>, text: Seq<char>) -> bool {
    forall|i: int, j: int|
        0 <= i <= j <= bytes.len() && valid_utf8(#[trigger] bytes.subrange(i, j)) ==> keeps_stretch(
            bytes,
            text,
            i,
            j,
        )
}

/// Where in a text the text of a valid stretch of the bytes stands.
pub proof fn lemma_stretch_place(bytes: Seq<u8>, text: Seq<char>, i: int, j: int) -> (p: int)
    requires
        keeps_valid_stretches(bytes, text),
        0 <= i <= j <= bytes.len(),
        valid_utf8(bytes.subrange(i, j)),
    ensures
        stands_at(text, decode_utf8(bytes.subrange(i, j)), p),
        i == 0 ==> p == 0,
        j == bytes.len() ==> p + decode_utf8(bytes.subrange(i, j)).len() == text.len(),
        feeds(text.take(p)) == byte_feeds(bytes.take(i)),
{
    let part = decode_utf8(bytes.subrange(i, j));
    assert(keeps_stretch(bytes, text, i, j));
    choose|p: int|
        {
            &&& #[trigger] stands_at(text, part, p)
            &&& i == 0 ==> p == 0
            &&& j == bytes.len() ==> p + part.len() == text.len()
            &&& feeds(text.take(p)) == byte_feeds(bytes.take(i))
        }
}

/// Calls `String::from_utf8_lossy`. Valid UTF-8 gives the encoded text. Other bytes give a text
/// that they alone fix. In it only invalid sequences are replaced, so the text of every stretch of
/// valid UTF-8 stays: at the beginning or the end if the stretch is there, and behind as many line
/// feeds, as no replacement takes or adds one. No stretch is cut, since its first byte is not one
/// that a character or an invalid sequence goes on with. How many replacement characters stand for
/// invalid bytes is not stated here.
#[verifier::external_body]
pub(crate) fn lossy_text(bytes: &[u8]) -> (r: String)
    ensures
        valid_utf8(bytes@) ==> r@ == decode_utf8(bytes@),
        !valid_utf8(bytes@) ==> r@ == repaired_text(bytes@),
        keeps_valid_stretches(bytes@, r@),
{
    String::from_utf8_lossy(bytes).into_owned()
}

/// The text of content that stands behind a byte order mark.
pub open spec fn body_text(encoding: Encoding, body: Seq<u8>) -> Seq<char> {
    match encoding {
        Encoding::Utf8Bom | Encoding::Unmarked => utf8_text(body),
        Encoding::Utf16Le => utf16_text(units(body, false)),
        Encoding::Utf16Be => utf16_text(units(body, true)),
        Encoding::Utf32Le => utf32_text(codes(body, false)),
        Encoding::Utf32Be => utf32_text(codes(body, true)),
    }
}

/// Decodes the content of a file behind the byte order mark that announced its encoding. Content
/// that is shorter than the mark has no text.
pub fn decode_content(encoding: Encoding, bytes: &[u8]) -> (r: Option<String>)
    requires
        !(encoding is Unmarked),
    ensures
        r is None <==> bytes@.len() < mark(encoding).len(),
        r matches Some(text) ==> text@ == body_text(
            encoding,
            bytes@.skip(mark(encoding).len() as int),
        ),
        r matches Some(text) ==> encoding is Utf8Bom ==> keeps_valid_stretches(
            bytes@.skip(mark(encoding).len() as int),
            text@,
        ),
{
    let n: usize = encoding.bom_len();
    if bytes.len() < n {
        return None;
    }
    let body: &[u8] = bytes.split_at(n).1;
    assert(body@ =~= bytes@.skip(n as int));
    let text: String = match encoding {
        Encoding::Utf8Bom | Encoding::Unmarked => lossy_text(body),
        Encoding::Utf16Le => decode_utf16(body, false),
        Encoding::Utf16Be => decode_utf16(body, true),
        Encoding::Utf32Le => decode_utf32(body, false),
        Encoding::Utf32Be => decode_utf32(body, true),
    };
    Some(text)
}

/// The UTF-16 numbers of a character.
pub open spec fn char_units(c: char) -> Seq<u16> {
    if (c as u32) < 0x10000 {
        seq![c as u16]
    } else {
        seq![
            (0xd800 + (c as u32 - 0x10000) / 0x400) as u16,
            (0xdc00 + (c as u32 - 0x10000) % 0x400) as u16,
        ]
    }
}

/// The UTF-16 numbers of a text.
pub open spec fn text_units(text: Seq<char>) -> Seq<u16>
    decreases text.len(),
{
    if text.len() == 0 {
        seq![]
    } else {
        char_units(text[0]) + text_units(text.drop_first())
    }
}

/// The bytes of a sequence of 16-bit numbers.
pub open spec fn unit_bytes(u: Seq<u16>, big_endian: bool) -> Seq<u8> {
    Seq::new(
        2 * u.len(),
        |i: int|
            if (i % 2 == 0) == big_endian {
                (u[i / 2] / 0x100) as u8
            } else {
                (u[i / 2] % 0x100) as u8
            },
    )
}

/// The bytes of a text in UTF-32.
pub open spec fn code_bytes(text: Seq<char>, big_endian: bool) -> Seq<u8> {
    Seq::new(
        4 * text.len(),
        |i: int|
            {
                let c = text[i / 4] as u32;
                let place = if big_endian {
                    3 - i % 4
                } else {
                    i % 4
                };
                if place == 0 {
                    (c % 0x100) as u8
                } else if place == 1 {
                    (c / 0x100 % 0x100) as u8
                } else if place == 2 {
                    (c / 0x10000 % 0x100) as u8
                } else {
                    (c / 0x1000000) as u8
                }
            },
    )
}

/// The bytes of a text in an encoding, without a byte order mark.
pub open spec fn encoded(encoding: Encoding, text: Seq<char>) -> Seq<u8> {
    match encoding {
        Encoding::Utf8Bom | Encoding::Unmarked => encode_utf8(text),
        Encoding::Utf16Le => unit_bytes(text_units(text), false),
        Encoding::Utf16Be => unit_bytes(text_units(text), true),
        Encoding::Utf32Le => code_bytes(text, false),
        Encoding::Utf32Be => code_bytes(text, true),
    }
}

/// Decoding gives back the UTF-16 numbers whose bytes were written.
pub proof fn lemma_units_of_unit_bytes(u: Seq<u16>, big_endian: bool)
    ensures
        units(unit_bytes(u, big_endian), big_endian) == u,
{
    let b = unit_bytes(u, big_endian);
    assert forall|i: int| 0 <= i < u.len() implies unit(b[2 * i], b[2 * i + 1], big_endian)
        == u[i] by {
        assert((2 * i) / 2 == i && (2 * i) % 2 == 0);
        assert((2 * i + 1) / 2 == i && (2 * i + 1) % 2 == 1);
    }
    assert(units(b, big_endian) =~= u);
}

/// UTF-16 keeps every text: decoding the numbers of a text gives the text.
pub proof fn lemma_utf16_round_trip(text: Seq<char>)
    ensures
        utf16_text(text_units(text)) == text,
    decreases text.len(),
{
    if text.len() > 0 {
        let c = text[0];
        let rest = text.drop_first();
        let u = text_units(text);
        lemma_utf16_round_trip(rest);
        char_is_scalar(c);
        char_u32_cast(c, c as u32);
        assert(text =~= seq![c] + rest);
        if (c as u32) < 0x10000 {
            assert(u.skip(1) =~= text_units(rest));
            assert(utf16_text(u) == seq![u[0] as char] + utf16_text(u.skip(1)));
        } else {
            assert(u.skip(2) =~= text_units(rest));
            assert(is_lead(u[0]) && is_trail(u[1]));
            assert(pair_code(u[0], u[1]) == c as u32);
        }
    }
}

/// UTF-32 keeps every text: decoding the bytes of a text gives the text.
pub proof fn lemma_utf32_round_trip(text: Seq<char>, big_endian: bool)
    ensures
        utf32_text(codes(code_bytes(text, big_endian), big_endian)) == text,
{
    let b = code_bytes(text, big_endian);
    let c = codes(b, big_endian);
    assert forall|i: int| 0 <= i < text.len() implies c[i] == text[i] as u32 by {
        assert((4 * i) / 4 == i && (4 * i) % 4 == 0);
        assert((4 * i + 1) / 4 == i && (4 * i + 1) % 4 == 1);
        assert((4 * i + 2) / 4 == i && (4 * i + 2) % 4 == 2);
        assert((4 * i + 3) / 4 == i && (4 * i + 3) % 4 == 3);
    }
    assert forall|i: int| 0 <= i < text.len() implies #[trigger] utf32_text(c)[i] == text[i] by {
        char_is_scalar(text[i]);
        char_u32_cast(text[i], c[i]);
    }
    assert(utf32_text(c) =~= text);
}

/// What was written in an encoding is read back: the text of the encoded bytes of a text is that
/// text, whatever the encoding.
pub proof fn lemma_encoded_text(encoding: Encoding, text: Seq<char>)
    ensures
        body_text(encoding, encoded(encoding, text)) == text,
{
    encode_utf8_valid_utf8(text);
    encode_utf8_decode_utf8(text);
    lemma_utf16_round_trip(text);
    lemma_units_of_unit_bytes(text_units(text), false);
    lemma_units_of_unit_bytes(text_units(text), true);
    lemma_utf32_round_trip(text, false);
    lemma_utf32_round_trip(text, true);
}

/// A byte order mark is recognised: content that begins with the mark of an encoding is detected
/// as that encoding, unless it is the mark of little-endian UTF-16 before two zero bytes, which
/// together are the mark of little-endian UTF-32.
pub proof fn lemma_mark_detected(encoding: Encoding, body: Seq<u8>)
    requires
        !(encoding is Unmarked),
        encoding is Utf16Le ==> !(seq![0u8, 0u8].is_prefix_of(body)),
    ensures
        detected(mark(encoding) + body) == encoding,
{
    let all = mark(encoding) + body;
    assert forall|e: Encoding| #[trigger] mark(e).is_prefix_of(all) implies forall|i: int|
        0 <= i < mark(e).len() ==> mark(e)[i] == all[i] by {
        assert forall|i: int| 0 <= i < mark(e).len() implies mark(e)[i] == all[i] by {
            assert(all.subrange(0, mark(e).len() as int)[i] == all[i]);
        }
    }
    assert(mark(encoding).is_prefix_of(all));
    if encoding is Utf16Le && mark(Encoding::Utf32Le).is_prefix_of(all) {
        assert(mark(Encoding::Utf32Le)[2] == all[2] && mark(Encoding::Utf32Le)[3] == all[3]);
        assert(seq![0u8, 0u8] =~= body.subrange(0, 2));
    }
    if mark(Encoding::Utf8Bom).is_prefix_of(all) {
        assert(mark(Encoding::Utf8Bom)[0] == all[0]);
    }
    if mark(Encoding::Utf32Be).is_prefix_of(all) {
        assert(mark(Encoding::Utf32Be)[0] == all[0]);
    }
    if mark(Encoding::Utf32Le).is_prefix_of(all) {
        assert(mark(Encoding::Utf32Le)[0] == all[0]);
    }
    if mark(Encoding::Utf16Le).is_prefix_of(all) {
        assert(mark(Encoding::Utf16Le)[0] == all[0]);
    }
}

/// The first four bytes of a file, or all of a shorter one, announce the same encoding as the whole
/// file.
pub proof fn lemma_head_suffices(head: Seq<u8>, content: Seq<u8>)
    requires
        head.is_prefix_of(content),
        head.len() >= 4 || head == content,
    ensures
        detected(head) == detected(content),
{
    assert forall|e: Encoding| #[trigger] mark(e).is_prefix_of(head) == mark(e).is_prefix_of(
        content,
    ) by {
        if head.len() >= 4 {
            let n = mark(e).len() as int;
            assert(head.subrange(0, n) =~= content.subrange(0, n)) by {
                assert forall|i: int| 0 <= i < n implies head[i] == content[i] by {
                    assert(content.subrange(0, head.len() as int)[i] == content[i]);
                }
            }
        }
    }
    assert(mark(Encoding::Utf8Bom).is_prefix_of(head) == mark(Encoding::Utf8Bom).is_prefix_of(
        content,
    ));
    assert(mark(Encoding::Utf32Be).is_prefix_of(head) == mark(Encoding::Utf32Be).is_prefix_of(
        content,
    ));
    assert(mark(Encoding::Utf32Le).is_prefix_of(head) == mark(Encoding::Utf32Le).is_prefix_of(
        content,
    ));
    assert(mark(Encoding::Utf16Le).is_prefix_of(head) == mark(Encoding::Utf16Le).is_prefix_of(
        content,
    ));
    assert(mark(Encoding::Utf16Be).is_prefix_of(head) == mark(Encoding::Utf16Be).is_prefix_of(
        content,
    ));
}

/// In little-endian UTF-16, a text begins with two zero bytes only where its first character is
/// the zero character.
pub proof fn lemma_utf16_leading_zeros(text: Seq<char>)
    requires
        text.len() == 0 || text[0] != '\0',
    ensures
        !seq![0u8, 0u8].is_prefix_of(encoded(Encoding::Utf16Le, text)),
{
    let zeros = seq![0u8, 0u8];
    let u = text_units(text);
    let b = encoded(Encoding::Utf16Le, text);
    if zeros.is_prefix_of(b) {
        assert(b.subrange(0, 2)[0] == b[0] && b.subrange(0, 2)[1] == b[1]);
        assert(zeros[0] == b[0] && zeros[1] == b[1]);
        assert(text.len() > 0);
        char_is_scalar(text[0]);
        char_u32_cast(text[0], text[0] as u32);
        assert(u[0] == char_units(text[0])[0]);
        assert(u[0] % 0x100 == 0 && u[0] / 0x100 == 0);
        assert(text[0] as u32 == 0);
    }
}

/// UTF-8 without a byte order mark is taken for what it is: the encoded bytes of a text announce
/// no other encoding, unless the text itself begins with the mark character.
pub proof fn lemma_plain_text_unmarked(text: Seq<char>)
    requires
        text.len() == 0 || text[0] != '\u{feff}',
    ensures
        detected(encode_utf8(text)) is Unmarked,
{
    let b = encode_utf8(text);
    encode_utf8_valid_utf8(text);
    if text.len() > 0 {
        encode_utf8_first_scalar(text);
        assert forall|e: Encoding, i: int| #[trigger] mark(e).is_prefix_of(b) && 0 <= i
            < mark(e).len() implies #[trigger] mark(e)[i] == b[i] by {
            assert(b.subrange(0, mark(e).len() as int)[i] == b[i]);
        }
        if mark(Encoding::Utf8Bom).is_prefix_of(b) {
            assert(mark(Encoding::Utf8Bom)[0] == b[0]);
            assert(mark(Encoding::Utf8Bom)[1] == b[1]);
            assert(mark(Encoding::Utf8Bom)[2] == b[2]);
            assert(codepoint_width_3(0xef, 0xbb, 0xbf) == 0xfeff) by (bit_vector);
            char_u32_cast(text[0], 0xfeff);
        }
        if mark(Encoding::Utf32Be).is_prefix_of(b) {
            let tail = pop_first_scalar(b);
            let rest = pop_first_scalar(tail);
            assert(mark(Encoding::Utf32Be)[0] == b[0]);
            assert(mark(Encoding::Utf32Be)[1] == b[1]);
            assert(mark(Encoding::Utf32Be)[2] == b[2]);
            assert(tail[0] == b[1]);
            assert(rest[0] == b[2]);
            assert(valid_utf8(tail));
            assert(valid_utf8(rest));
            assert(!valid_first_scalar(rest));
        }
        if mark(Encoding::Utf16Le).is_prefix_of(b) {
            assert(mark(Encoding::Utf16Le)[0] == b[0]);
        }
        if mark(Encoding::Utf16Be).is_prefix_of(b) {
            assert(mark(Encoding::Utf16Be)[0] == b[0]);
        }
        if mark(Encoding::Utf32Le).is_prefix_of(b) {
            assert(mark(Encoding::Utf32Le)[0] == b[0]);
        }
    }
}

/// A byte order mark is the mark character, in the encoding that it announces.
pub proof fn lemma_mark_is_encoded(encoding: Encoding)
    ensures
        mark(encoding) == if encoding is Unmarked {
            seq![]
        } else {
            encoded(encoding, seq!['\u{feff}'])
        },
{
    let text = seq!['\u{feff}'];
    let rest = text.drop_first();
    assert(rest =~= Seq::<char>::empty());
    char_u32_cast('\u{feff}', 0xfeff);
    reveal_with_fuel(encode_utf8, 2);
    reveal_with_fuel(text_units, 2);
    assert(text_units(text) =~= seq![0xfeffu16]);
    assert(leading_byte_width_3(0xfeff) == 0xef) by (bit_vector);
    assert(second_last_continuation_byte(0xfeff) == 0xbb) by (bit_vector);
    assert(last_continuation_byte(0xfeff) == 0xbf) by (bit_vector);
    assert(encode_utf8(text) =~= seq![0xefu8, 0xbbu8, 0xbfu8]);
    assert(unit_bytes(text_units(text), true) =~= seq![0xfeu8, 0xffu8]);
    assert(unit_bytes(text_units(text), false) =~= seq![0xffu8, 0xfeu8]);
    assert(code_bytes(text, true) =~= seq![0x00u8, 0x00u8, 0xfeu8, 0xffu8]);
    assert(code_bytes(text, false) =~= seq![0xffu8, 0xfeu8, 0x00u8, 0x00u8]);
}

/// UTF-16 numbers are read two bytes at a time, the higher byte first or last; a last byte without
/// a partner is left out.
pub proof fn lemma_units_read(high: u8, low: u8, rest: Seq<u8>, n: u16)
    requires
        n / 0x100 == high,
        n % 0x100 == low,
    ensures
        units(seq![high, low] + rest, true) == seq![n] + units(rest, true),
        units(seq![low, high] + rest, false) == seq![n] + units(rest, false),
        units(seq![high], true) == Seq::<u16>::empty(),
        units(seq![high], false) == Seq::<u16>::empty(),
        units(seq![], true) == Seq::<u16>::empty(),
        units(seq![], false) == Seq::<u16>::empty(),
{
    let big = seq![high, low] + rest;
    let little = seq![low, high] + rest;
    assert forall|i: int| 1 <= i < units(big, true).len() implies units(big, true)[i] == units(
        rest,
        true,
    )[i - 1] && units(little, false)[i] == units(rest, false)[i - 1] by {
        assert(big[2 * i] == rest[2 * (i - 1)] && big[2 * i + 1] == rest[2 * (i - 1) + 1]);
        assert(little[2 * i] == rest[2 * (i - 1)] && little[2 * i + 1] == rest[2 * (i - 1) + 1]);
    }
    assert(units(big, true) =~= seq![n] + units(rest, true));
    assert(units(little, false) =~= seq![n] + units(rest, false));
    assert(units(seq![high], true) =~= Seq::<u16>::empty());
    assert(units(seq![high], false) =~= Seq::<u16>::empty());
    assert(units(seq![], true) =~= Seq::<u16>::empty());
    assert(units(seq![], false) =~= Seq::<u16>::empty());
}

/// UTF-16 numbers are taken for characters from the first to the last. One outside the surrogates
/// is the code point of its character; two that make a pair hold the upper and the lower ten bits
/// of what a code point has above `0xffff`; any other surrogate is replaced.
pub proof fn lemma_utf16_read(u: u16, v: u16, rest: Seq<u16>, c: char)
    ensures
        utf16_text(seq![]) == Seq::<char>::empty(),
        u < 0xd800 || 0xdfff < u ==> c as u32 == u ==> utf16_text(seq![u] + rest) == seq![c]
            + utf16_text(rest),
        0xd800 <= u <= 0xdbff && 0xdc00 <= v <= 0xdfff && c as u32 >= 0x10000 && (c as u32
            - 0x10000) / 0x400 == u - 0xd800 && (c as u32 - 0x10000) % 0x400 == v - 0xdc00
            ==> utf16_text(seq![u, v] + rest) == seq![c] + utf16_text(rest),
        0xdc00 <= u <= 0xdfff ==> utf16_text(seq![u] + rest) == seq!['\u{fffd}'] + utf16_text(rest),
        0xd800 <= u <= 0xdbff && (rest.len() == 0 || rest[0] < 0xdc00 || 0xdfff < rest[0])
            ==> utf16_text(seq![u] + rest) == seq!['\u{fffd}'] + utf16_text(rest),
{
    let one = seq![u] + rest;
    let two = seq![u, v] + rest;
    assert(one.skip(1) =~= rest);
    assert(two.skip(2) =~= rest);
    char_is_scalar(c);
    char_u32_cast(c, c as u32);
    assert(one[0] == u && two[0] == u && two[1] == v);
    if rest.len() > 0 {
        assert(one[1] == rest[0]);
    }
}

/// UTF-32 numbers are read four bytes at a time, the highest byte first or last, and each is the
/// code point of its character; a number that belongs to none is replaced, and an incomplete rest
/// is left out.
pub proof fn lemma_utf32_read(n: u32, rest: Seq<u8>, c: char)
    requires
        c as u32 == n || c == '\u{fffd}' && (0xd800 <= n <= 0xdfff || 0x10ffff < n),
    ensures
        ({
            let b0 = (n / 0x1000000) as u8;
            let b1 = (n / 0x10000 % 0x100) as u8;
            let b2 = (n / 0x100 % 0x100) as u8;
            let b3 = (n % 0x100) as u8;
            &&& utf32_text(codes(seq![b0, b1, b2, b3] + rest, true)) == seq![c] + utf32_text(
                codes(rest, true),
            )
            &&& utf32_text(codes(seq![b3, b2, b1, b0] + rest, false)) == seq![c] + utf32_text(
                codes(rest, false),
            )
        }),
        rest.len() < 4 ==> utf32_text(codes(rest, true)) == Seq::<char>::empty()
            && utf32_text(codes(rest, false)) == Seq::<char>::empty(),
{
    let b0 = (n / 0x1000000) as u8;
    let b1 = (n / 0x10000 % 0x100) as u8;
    let b2 = (n / 0x100 % 0x100) as u8;
    let b3 = (n % 0x100) as u8;
    let big = seq![b0, b1, b2, b3] + rest;
    let little = seq![b3, b2, b1, b0] + rest;
    char_is_scalar(c);
    if c as u32 == n {
        char_u32_cast(c, n);
    }
    assert forall|i: int| 1 <= i < codes(big, true).len() implies codes(big, true)[i] == codes(
        rest,
        true,
    )[i - 1] && codes(little, false)[i] == codes(rest, false)[i - 1] by {
        let j = 4 * (i - 1);
        assert(big[4 * i] == rest[j] && big[4 * i + 1] == rest[j + 1]);
        assert(big[4 * i + 2] == rest[j + 2] && big[4 * i + 3] == rest[j + 3]);
        assert(little[4 * i] == rest[j] && little[4 * i + 1] == rest[j + 1]);
        assert(little[4 * i + 2] == rest[j + 2] && little[4 * i + 3] == rest[j + 3]);
    }
    assert(codes(big, true)[0] == n);
    assert(codes(little, false)[0] == n);
    assert(utf32_text(codes(big, true)) =~= seq![c] + utf32_text(codes(rest, true)));
    assert(utf32_text(codes(little, false)) =~= seq![c] + utf32_text(codes(rest, false)));
    if rest.len() < 4 {
        assert(utf32_text(codes(rest, true)) =~= Seq::<char>::empty());
        assert(utf32_text(codes(rest, false)) =~= Seq::<char>::empty());
    }
}

/// Which reading an encoding stands for, for any bytes behind the mark.
pub proof fn lemma_body_text(body: Seq<u8>)
    ensures
        valid_utf8(body) ==> body_text(Encoding::Utf8Bom, body) == decode_utf8(body),
        !valid_utf8(body) ==> body_text(Encoding::Utf8Bom, body) == repaired_text(body),
        body_text(Encoding::Utf16Le, body) == utf16_text(units(body, false)),
        body_text(Encoding::Utf16Be, body) == utf16_text(units(body, true)),
        body_text(Encoding::Utf32Le, body) == utf32_text(codes(body, false)),
        body_text(Encoding::Utf32Be, body) == utf32_text(codes(body, true)),
{
}

/// Which encoding is detected: the one with the longest mark that the bytes begin with.
pub proof fn lemma_longest_mark_detected(bytes: Seq<u8>, encoding: Encoding)
    ensures
        mark(detected(bytes)).is_prefix_of(bytes),
        mark(encoding).is_prefix_of(bytes) ==> mark(encoding).len() <= mark(
            detected(bytes),
        ).len(),
{
}

} // verus!
