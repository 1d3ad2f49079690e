//! Locating a keyword in a text, byte by byte, and moving offsets to character boundaries.

use vstd::prelude::*;
use vstd::string::*;
use vstd::utf8::*;

verus! {

/// A byte with the ASCII capital letters turned into small ones; every other byte stays.
pub open spec fn fold(b: u8) -> u8 {
    if 0x41 <= b <= 0x5a {
        (b + 0x20) as u8
    } else {
        b
    }
}

/// Whether two bytes count as equal: exactly, or up to ASCII case.
pub open spec fn same_byte(a: u8, b: u8, case_sensitive: bool) -> bool {
    if case_sensitive {
        a == b
    } else {
        fold(a) == fold(b)
    }
}

/// What counts as equal. With regard to case a byte equals itself alone. Without it, a byte equals
/// itself, and an ASCII letter also the same letter in the other case, which lies `0x20` away.
pub proof fn lemma_same_byte(a: u8, b: u8)
    ensures
        same_byte(a, b, true) <==> a == b,
        same_byte(a, b, false) <==> {
            ||| a == b
            ||| 0x41 <= a <= 0x5a && b == a + 0x20
            ||| 0x61 <= a <= 0x7a && b == a - 0x20
        },
{
}

/// Whether `pat` occurs in `hay` at byte offset `i`.
pub open spec fn matches_at(hay: Seq<u8>, pat: Seq<u8>, case_sensitive: bool, i: int) -> bool {
    &&& 0 <= i
    &&& i + pat.len() <= hay.len()
    &&& forall|k: int|
        0 <= k < pat.len() ==> same_byte(hay[i + k], #[trigger] pat[k], case_sensitive)
}

/// What an occurrence is: with regard to case, the bytes of the keyword themselves; without it, as
/// many bytes, each of them that of the keyword or the same ASCII letter in the other case.
pub proof fn lemma_matches_at(hay: Seq<u8>, pat: Seq<u8>, i: int)
    ensures
        matches_at(hay, pat, true, i) <==> 0 <= i && i + pat.len() <= hay.len() && hay.subrange(
            i,
            i + pat.len(),
        ) == pat,
        matches_at(hay, pat, false, i) <==> 0 <= i && i + pat.len() <= hay.len() && forall|k: int|
            #![trigger pat[k]]
            0 <= k < pat.len() ==> {
                ||| hay[i + k] == pat[k]
                ||| 0x41 <= pat[k] <= 0x5a && hay[i + k] == pat[k] + 0x20
                ||| 0x61 <= pat[k] <= 0x7a && hay[i + k] == pat[k] - 0x20
            },
{
    if 0 <= i && i + pat.len() <= hay.len() {
        let found = hay.subrange(i, i + pat.len());
        if matches_at(hay, pat, true, i) {
            assert forall|k: int| 0 <= k < pat.len() implies found[k] == pat[k] by {
                assert(same_byte(hay[i + k], pat[k], true));
            }
            assert(found =~= pat);
        }
        if found == pat {
            assert forall|k: int| 0 <= k < pat.len() implies same_byte(
                hay[i + k],
                #[trigger] pat[k],
                true,
            ) by {
                assert(found[k] == hay[i + k]);
            }
        }
        assert forall|k: int| 0 <= k < pat.len() implies {
            ||| hay[i + k] == #[trigger] pat[k]
            ||| 0x41 <= pat[k] <= 0x5a && hay[i + k] == pat[k] + 0x20
            ||| 0x61 <= pat[k] <= 0x7a && hay[i + k] == pat[k] - 0x20
        } == same_byte(hay[i + k], pat[k], false) by {
            lemma_same_byte(hay[i + k], pat[k]);
        }
    }
}

/// Whether `i` is the lowest offset at which `pat` occurs in `hay`.
pub open spec fn is_first_match(
    hay: Seq<u8>,
    pat: Seq<u8>,
    case_sensitive: bool,
    i: int,
) -> bool {
    &&& matches_at(hay, pat, case_sensitive, i)
    &&& forall|j: int| 0 <= j < i ==> !#[trigger] matches_at(hay, pat, case_sensitive, j)
}

/// The lowest offset at which `pat` occurs in `hay`, if it occurs at all.
pub open spec fn first_match(hay: Seq<u8>, pat: Seq<u8>, case_sensitive: bool) -> Option<int> {
    if exists|i: int| matches_at(hay, pat, case_sensitive, i) {
        Some(choose|i: int| is_first_match(hay, pat, case_sensitive, i))
    } else {
        None
    }
}

/// An offset found by executable code, as a mathematical one.
pub open spec fn offset(found: Option<usize>) -> Option<int> {
    match found {
        Some(i) => Some(i as int),
        None => None,
    }
}

proof fn lemma_first_match_is(hay: Seq<u8>, pat: Seq<u8>, case_sensitive: bool, i: int)
    requires
        is_first_match(hay, pat, case_sensitive, i),
    ensures
        first_match(hay, pat, case_sensitive) == Some(i),
{
    let j = choose|j: int| is_first_match(hay, pat, case_sensitive, j);
    assert(is_first_match(hay, pat, case_sensitive, j));
    if j < i {
        assert(!matches_at(hay, pat, case_sensitive, j));
    }
    if i < j {
        assert(!matches_at(hay, pat, case_sensitive, i));
    }
}

proof fn lemma_lowest(hay: Seq<u8>, pat: Seq<u8>, case_sensitive: bool, from: int, i: int) -> (low:
    int)
    requires
        0 <= from <= i,
        matches_at(hay, pat, case_sensitive, i),
        forall|j: int| 0 <= j < from ==> !#[trigger] matches_at(hay, pat, case_sensitive, j),
    ensures
        low <= i,
        is_first_match(hay, pat, case_sensitive, low),
    decreases i - from,
{
    if matches_at(hay, pat, case_sensitive, from) {
        from
    } else {
        lemma_lowest(hay, pat, case_sensitive, from + 1, i)
    }
}

/// Where the keyword occurs anywhere, the first match exists, is an occurrence, and lies no
/// further right than any other occurrence.
pub proof fn lemma_first_match(hay: Seq<u8>, pat: Seq<u8>, case_sensitive: bool, i: int)
    requires
        matches_at(hay, pat, case_sensitive, i),
    ensures
        first_match(hay, pat, case_sensitive) is Some,
        is_first_match(hay, pat, case_sensitive, first_match(hay, pat, case_sensitive)->0),
        first_match(hay, pat, case_sensitive)->0 <= i,
{
    let low = lemma_lowest(hay, pat, case_sensitive, 0, i);
    lemma_first_match_is(hay, pat, case_sensitive, low);
}

/// What a first match is: the lowest occurrence where there is one, nothing where there is none.
pub proof fn lemma_first_match_spec(hay: Seq<u8>, pat: Seq<u8>, case_sensitive: bool)
    ensures
        first_match(hay, pat, case_sensitive) matches Some(i) ==> is_first_match(
            hay,
            pat,
            case_sensitive,
            i,
        ),
        first_match(hay, pat, case_sensitive) matches Some(i) ==> matches_at(
            hay,
            pat,
            case_sensitive,
            i,
        ) && forall|j: int| j < i ==> !#[trigger] matches_at(hay, pat, case_sensitive, j),
        first_match(hay, pat, case_sensitive) is None ==> forall|i: int|
            !#[trigger] matches_at(hay, pat, case_sensitive, i),
{
    if exists|i: int| matches_at(hay, pat, case_sensitive, i) {
        let i = choose|i: int| matches_at(hay, pat, case_sensitive, i);
        lemma_first_match(hay, pat, case_sensitive, i);
    }
}

/// The bytes of a prefix fix where the characters end: a text that agrees with `pat` on which
/// bytes are ASCII, and on all other bytes exactly, has a character boundary where `pat` ends.
proof fn lemma_boundary_after(hay: Seq<u8>, pat: Seq<u8>)
    requires
        valid_utf8(hay),
        valid_utf8(pat),
        matches_at(hay, pat, false, 0),
    ensures
        is_char_boundary(hay, pat.len() as int),
    decreases pat.len(),
{
    if pat.len() > 0 {
        assert(same_byte(hay[0], pat[0], false));
        let n = length_of_first_scalar(pat);
        assert(n == length_of_first_scalar(hay));
        let rest = pop_first_scalar(hay);
        let tail = pop_first_scalar(pat);
        assert forall|k: int| 0 <= k < tail.len() implies same_byte(
            rest[0 + k],
            #[trigger] tail[k],
            false,
        ) by {
            assert(same_byte(hay[0 + (n + k)], pat[n + k], false));
        }
        lemma_boundary_after(rest, tail);
    }
}

/// A character boundary of the rest of a text behind a character boundary is one of the text.
pub proof fn lemma_boundary_shift(bytes: Seq<u8>, i: int, n: int)
    requires
        valid_utf8(bytes),
        is_char_boundary(bytes, i),
        0 <= i <= bytes.len(),
        0 <= n <= bytes.len() - i,
    ensures
        valid_utf8(bytes.subrange(i, bytes.len() as int)),
        is_char_boundary(bytes.subrange(i, bytes.len() as int), n) == is_char_boundary(
            bytes,
            i + n,
        ),
{
    let rest = bytes.subrange(i, bytes.len() as int);
    valid_utf8_split(bytes, i);
    if i + n < bytes.len() {
        is_char_boundary_iff_not_is_continuation_byte(bytes, i + n);
        is_char_boundary_iff_not_is_continuation_byte(rest, n);
    } else {
        is_char_boundary_start_end_of_seq(bytes);
        is_char_boundary_start_end_of_seq(rest);
    }
}

/// A character boundary of a text is one of every beginning of the text that ends at a boundary.
pub proof fn lemma_boundary_prefix(bytes: Seq<u8>, i: int, end: int)
    requires
        valid_utf8(bytes),
        is_char_boundary(bytes, i),
        is_char_boundary(bytes, end),
        0 <= i <= end <= bytes.len(),
    ensures
        valid_utf8(bytes.subrange(0, end)),
        is_char_boundary(bytes.subrange(0, end), i),
{
    let head = bytes.subrange(0, end);
    valid_utf8_split(bytes, end);
    if i < end {
        is_char_boundary_iff_not_is_continuation_byte(bytes, i);
        is_char_boundary_iff_not_is_continuation_byte(head, i);
    } else {
        is_char_boundary_start_end_of_seq(head);
    }
}

/// A match never splits a character: wherever a keyword occurs in a text, with or without regard
/// to case, the occurrence begins and ends at a character boundary of the text.
pub proof fn lemma_match_on_boundaries(
    hay: Seq<u8>,
    pat: Seq<u8>,
    case_sensitive: bool,
    i: int,
)
    requires
        valid_utf8(hay),
        valid_utf8(pat),
        pat.len() > 0,
        matches_at(hay, pat, case_sensitive, i),
    ensures
        is_char_boundary(hay, i),
        is_char_boundary(hay, i + pat.len()),
{
    assert(same_byte(hay[i + 0], pat[0], case_sensitive));
    is_char_boundary_start_end_of_seq(pat);
    is_char_boundary_iff_not_is_continuation_byte(pat, 0);
    is_char_boundary_iff_not_is_continuation_byte(hay, i);
    lemma_boundary_shift(hay, i, pat.len() as int);
    let rest = hay.subrange(i, hay.len() as int);
    assert forall|k: int| 0 <= k < pat.len() implies same_byte(
        rest[0 + k],
        #[trigger] pat[k],
        false,
    ) by {
        assert(same_byte(hay[i + k], pat[k], case_sensitive));
    }
    lemma_boundary_after(rest, pat);
}

proof fn lemma_same_bytes_valid(found: Seq<u8>, pat: Seq<u8>)
    requires
        valid_utf8(pat),
        found.len() == pat.len(),
        forall|k: int| 0 <= k < pat.len() ==> same_byte(found[k], #[trigger] pat[k], false),
    ensures
        valid_utf8(found),
    decreases pat.len(),
{
    if pat.len() > 0 {
        let n = length_of_first_scalar(pat);
        assert(same_byte(found[0], pat[0], false));
        if n > 1 {
            assert forall|k: int| 0 <= k < n implies found[k] == #[trigger] pat[k] by {
                assert(same_byte(found[k], pat[k], false));
            }
        } else {
            let first = found[0];
            assert(codepoint_width_1(first) <= 0x7f) by (bit_vector);
        }
        assert(valid_first_scalar(found));
        let rest = pop_first_scalar(found);
        let tail = pop_first_scalar(pat);
        assert forall|k: int| 0 <= k < tail.len() implies same_byte(
            rest[k],
            #[trigger] tail[k],
            false,
        ) by {
            assert(same_byte(found[n + k], pat[n + k], false));
        }
        lemma_same_bytes_valid(rest, tail);
    }
}

/// What a keyword matches is valid UTF-8, also where it stands among bytes that are not.
pub proof fn lemma_match_valid(hay: Seq<u8>, pat: Seq<u8>, case_sensitive: bool, i: int)
    requires
        valid_utf8(pat),
        matches_at(hay, pat, case_sensitive, i),
    ensures
        valid_utf8(hay.subrange(i, i + pat.len())),
{
    let found = hay.subrange(i, i + pat.len());
    assert forall|k: int| 0 <= k < pat.len() implies same_byte(
        found[k],
        #[trigger] pat[k],
        false,
    ) by {
        assert(same_byte(hay[i + k], pat[k], case_sensitive));
    }
    lemma_same_bytes_valid(found, pat);
}

/// Only ASCII letters are folded: outside ASCII a match has the bytes of the keyword exactly, in
/// either mode, and nothing outside ASCII matches an ASCII byte of the keyword.
pub proof fn lemma_non_ascii_exact(
    hay: Seq<u8>,
    pat: Seq<u8>,
    case_sensitive: bool,
    i: int,
    k: int,
)
    requires
        matches_at(hay, pat, case_sensitive, i),
        0 <= k < pat.len(),
    ensures
        pat[k] >= 0x80 || hay[i + k] >= 0x80 ==> hay[i + k] == pat[k],
{
    assert(same_byte(hay[i + k], pat[k], case_sensitive));
}

/// Disregarding case finds whatever regarding it finds, and no later in the text.
pub proof fn lemma_folding_finds_more(hay: Seq<u8>, pat: Seq<u8>)
    requires
        first_match(hay, pat, true) is Some,
    ensures
        first_match(hay, pat, false) is Some,
        first_match(hay, pat, false)->0 <= first_match(hay, pat, true)->0,
{
    lemma_first_match_spec(hay, pat, true);
    let i = first_match(hay, pat, true)->0;
    assert forall|k: int| 0 <= k < pat.len() implies same_byte(
        hay[i + k],
        #[trigger] pat[k],
        false,
    ) by {
        assert(same_byte(hay[i + k], pat[k], true));
    }
    lemma_first_match(hay, pat, false, i);
}

/// Folds the ASCII capital letters of one byte.
fn fold_byte(b: u8) -> (r: u8)
    ensures
        r == fold(b),
{
    if 0x41 <= b && b <= 0x5a {
        b + 0x20
    } else {
        b
    }
}

fn matches_here(hay: &[u8], pat: &[u8], i: usize, case_sensitive: bool) -> (r: bool)
    requires
        i + pat@.len() <= hay@.len(),
    ensures
        r == matches_at(hay@, pat@, case_sensitive, i as int),
{
    let end: usize = hay.len();
    let mut k: usize = 0;
    while k < pat.len()
        invariant
            k <= pat@.len(),
            i + pat@.len() <= hay@.len() == end,
            forall|m: int|
                0 <= m < k ==> same_byte(hay@[i + m], #[trigger] pat@[m], case_sensitive),
        decreases pat@.len() - k,
    {
        let same: bool = if case_sensitive {
            hay[i + k] == pat[k]
        } else {
            fold_byte(hay[i + k]) == fold_byte(pat[k])
        };
        if !same {
            assert(!same_byte(hay@[i + k], pat@[k as int], case_sensitive));
            return false;
        }
        k = k + 1;
    }
    true
}

/// The byte offset of the first occurrence of `pattern` in `haystack`.
///
/// Without `case_sensitive`, ASCII letters are equal up to case; all other bytes are compared
/// exactly in either mode.
pub fn find_pattern(haystack: &str, pattern: &str, case_sensitive: bool) -> (r: Option<usize>)
    ensures
        offset(r) == first_match(haystack.spec_bytes(), pattern.spec_bytes(), case_sensitive),
        r matches Some(i) ==> is_first_match(
            haystack.spec_bytes(),
            pattern.spec_bytes(),
            case_sensitive,
            i as int,
        ),
        r is None <==> forall|i: int|
            !#[trigger] matches_at(
                haystack.spec_bytes(),
                pattern.spec_bytes(),
                case_sensitive,
                i,
            ),
{
    let hay: &[u8] = haystack.as_bytes();
    let pat: &[u8] = pattern.as_bytes();
    if pat.len() > hay.len() {
        return None;
    }
    let last: usize = hay.len() - pat.len();
    let mut i: usize = 0;
    loop
        invariant
            hay@ == haystack.spec_bytes(),
            pat@ == pattern.spec_bytes(),
            last + pat@.len() == hay@.len(),
            i <= last,
            forall|j: int| 0 <= j < i ==> !#[trigger] matches_at(hay@, pat@, case_sensitive, j),
        decreases last - i,
    {
        if matches_here(hay, pat, i, case_sensitive) {
            proof {
                lemma_first_match_is(hay@, pat@, case_sensitive, i as int);
            }
            return Some(i);
        }
        if i == last {
            return None;
        }
        i = i + 1;
    }
}

/// Whether `pattern` occurs in `haystack`.
pub fn contains_pattern(haystack: &str, pattern: &str, case_sensitive: bool) -> (r: bool)
    ensures
        r == first_match(haystack.spec_bytes(), pattern.spec_bytes(), case_sensitive).is_some(),
        r <==> exists|i: int|
            matches_at(haystack.spec_bytes(), pattern.spec_bytes(), case_sensitive, i),
{
    find_pattern(haystack, pattern, case_sensitive).is_some()
}

/// Whether `r` is the last character boundary of `bytes` that is no higher than `index`.
pub open spec fn is_floor_boundary(bytes: Seq<u8>, index: int, r: int) -> bool {
    &&& is_char_boundary(bytes, r)
    &&& 0 <= r <= bytes.len()
    &&& r <= index
    &&& forall|j: int|
        r < j <= index && j <= bytes.len() ==> !#[trigger] is_char_boundary(bytes, j)
}

/// Whether `r` is the first character boundary of `bytes` that is no lower than `index`, or the
/// end of `bytes` where `index` lies behind it.
pub open spec fn is_ceil_boundary(bytes: Seq<u8>, index: int, r: int) -> bool {
    &&& is_char_boundary(bytes, r)
    &&& 0 <= r <= bytes.len()
    &&& r >= index || r == bytes.len()
    &&& forall|j: int| index <= j < r ==> !#[trigger] is_char_boundary(bytes, j)
}

/// A character boundary stands at most three bytes behind any offset of a text.
proof fn lemma_boundary_near(bytes: Seq<u8>, index: int) -> (r: int)
    requires
        valid_utf8(bytes),
        0 <= index <= bytes.len(),
    ensures
        is_char_boundary(bytes, r),
        index <= r <= index + 3,
        r <= bytes.len(),
    decreases bytes.len(),
{
    if index == 0 {
        0
    } else {
        let n = length_of_first_scalar(bytes);
        let rest = pop_first_scalar(bytes);
        if index <= n {
            assert(is_char_boundary(rest, 0));
            n
        } else {
            let r = lemma_boundary_near(rest, index - n);
            assert(is_char_boundary(bytes, r + n));
            r + n
        }
    }
}

/// Moving an offset of a text to a character boundary moves it by three bytes at most, and not at
/// all where it is a boundary.
pub proof fn lemma_boundary_moves(bytes: Seq<u8>, index: int, floor: int, ceil: int)
    requires
        valid_utf8(bytes),
        0 <= index <= bytes.len(),
        is_floor_boundary(bytes, index, floor),
        is_ceil_boundary(bytes, index, ceil),
    ensures
        index - 3 <= floor <= index <= ceil <= index + 3,
        is_char_boundary(bytes, index) ==> floor == index && ceil == index,
{
    let above = lemma_boundary_near(bytes, index);
    if above < ceil {
        assert(!is_char_boundary(bytes, above));
    }
    if index >= 3 {
        let below = lemma_boundary_near(bytes, index - 3);
        if floor < below {
            assert(!is_char_boundary(bytes, below));
        }
    }
}

/// Which boundary an offset is moved to: down, the highest of those at or before it; up, the lowest
/// of those at or behind it, or the end of the text where the offset lies behind that.
pub proof fn lemma_boundary_nearest(bytes: Seq<u8>, index: int, floor: int, ceil: int)
    requires
        valid_utf8(bytes),
        0 <= index,
    ensures
        is_floor_boundary(bytes, index, floor) <==> {
            &&& is_char_boundary(bytes, floor) && floor <= index
            &&& forall|j: int| floor < j <= index ==> !#[trigger] is_char_boundary(bytes, j)
        },
        is_ceil_boundary(bytes, index, ceil) <==> {
            &&& is_char_boundary(bytes, ceil)
            &&& ceil >= index || ceil == bytes.len()
            &&& forall|j: int| index <= j < ceil ==> !#[trigger] is_char_boundary(bytes, j)
        },
{
    is_char_boundary_start_end_of_seq(bytes);
}

/// Moves an offset down to the nearest character boundary.
pub fn floor_char_boundary(s: &str, index: usize) -> (r: usize)
    ensures
        is_floor_boundary(s.spec_bytes(), index as int, r as int),
{
    let ghost bytes = s.spec_bytes();
    let len: usize = s.as_bytes().len();
    proof {
        encode_utf8_valid_utf8(s@);
        is_char_boundary_start_end_of_seq(bytes);
    }
    let mut idx: usize = if index < len {
        index
    } else {
        len
    };
    while idx > 0 && !s.is_char_boundary(idx)
        invariant
            bytes == s.spec_bytes(),
            valid_utf8(bytes),
            idx <= index,
            idx <= bytes.len(),
            forall|j: int|
                idx < j <= index && j <= bytes.len() ==> !#[trigger] is_char_boundary(bytes, j),
        decreases idx,
    {
        idx = idx - 1;
    }
    idx
}

/// Moves an offset up to the nearest character boundary.
pub fn ceil_char_boundary(s: &str, index: usize) -> (r: usize)
    ensures
        is_ceil_boundary(s.spec_bytes(), index as int, r as int),
{
    let ghost bytes = s.spec_bytes();
    let len: usize = s.as_bytes().len();
    proof {
        encode_utf8_valid_utf8(s@);
        is_char_boundary_start_end_of_seq(bytes);
    }
    let mut idx: usize = if index < len {
        index
    } else {
        len
    };
    while idx < len && !s.is_char_boundary(idx)
        invariant
            bytes == s.spec_bytes(),
            len == bytes.len(),
            idx <= len,
            idx >= index || idx == len,
            forall|j: int| index <= j < idx ==> !#[trigger] is_char_boundary(bytes, j),
        decreases len - idx,
    {
        idx = idx + 1;
    }
    idx
}

} // verus!
