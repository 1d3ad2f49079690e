//! Slices, equality, lines and numbers of texts.

use crate::matching;
use vstd::prelude::*;
use vstd::string::*;
use vstd::utf8::*;

verus! {

/// `String::push` puts one character behind the text.
pub assume_specification[ String::push ](s: &mut String, c: char)
    ensures
        final(s)@ == old(s)@.push(c),
;

/// The texts of a list of strings.
pub open spec fn texts(list: Seq<String>) -> Seq<Seq<char>> {
    Seq::new(list.len(), |i: int| list[i]@)
}

/// The part of a text between two byte offsets, both of them character boundaries.
pub fn slice<'a>(s: &'a str, from: usize, to: usize) -> (r: &'a str)
    requires
        from <= to <= s.spec_bytes().len(),
        is_char_boundary(s.spec_bytes(), from as int),
        is_char_boundary(s.spec_bytes(), to as int),
    ensures
        r.spec_bytes() == s.spec_bytes().subrange(from as int, to as int),
        r@ == decode_utf8(s.spec_bytes().subrange(from as int, to as int)),
{
    proof {
        encode_utf8_valid_utf8(s@);
        matching::lemma_boundary_prefix(s.spec_bytes(), from as int, to as int);
    }
    let head: &str = s.split_at(to).0;
    let r: &str = head.split_at(from).1;
    assert(r.spec_bytes() =~= s.spec_bytes().subrange(from as int, to as int));
    proof {
        encode_utf8_decode_utf8(r@);
    }
    r
}

/// Whether two texts are equal.
pub fn same_text(a: &str, b: &str) -> (r: bool)
    ensures
        r == (a@ == b@),
{
    let x: &[u8] = a.as_bytes();
    let y: &[u8] = b.as_bytes();
    if x.len() != y.len() {
        return false;
    }
    let mut i: usize = 0;
    while i < x.len()
        invariant
            x@ == a.spec_bytes(),
            y@ == b.spec_bytes(),
            x@.len() == y@.len(),
            i <= x@.len(),
            x@.take(i as int) == y@.take(i as int),
        decreases x@.len() - i,
    {
        if x[i] != y[i] {
            assert(x@ != y@);
            return false;
        }
        assert(x@.take(i + 1) =~= x@.take(i as int).push(x@[i as int]));
        assert(y@.take(i + 1) =~= y@.take(i as int).push(y@[i as int]));
        i = i + 1;
    }
    proof {
        assert(x@ =~= x@.take(i as int));
        assert(y@ =~= y@.take(i as int));
        encode_utf8_decode_utf8(a@);
        encode_utf8_decode_utf8(b@);
    }
    true
}

/// The character of a decimal digit.
pub open spec fn digit(d: int) -> char {
    (0x30 + d) as char
}

/// A number in decimal notation, without leading zeros.
pub open spec fn decimal(n: nat) -> Seq<char>
    decreases n,
{
    if n < 10 {
        seq![digit(n as int)]
    } else {
        decimal(n / 10).push(digit((n % 10) as int))
    }
}

/// A number in decimal notation reads back as the number: each digit counts ten times what stands
/// behind it. All its characters are digits, and the first is zero for the number zero alone.
pub proof fn lemma_decimal_reads_back(n: nat)
    ensures
        decimal(n).fold_left(0int, |v: int, c: char| 10 * v + (c as int - '0' as int)) == n,
        decimal(n).len() > 0,
        forall|i: int| 0 <= i < decimal(n).len() ==> '0' <= #[trigger] decimal(n)[i] <= '9',
        decimal(n)[0] == '0' ==> n == 0 && decimal(n).len() == 1,
    decreases n,
{
    let s = decimal(n);
    reveal_with_fuel(Seq::fold_left, 2);
    if n < 10 {
        assert(s.drop_last() =~= Seq::<char>::empty());
    } else {
        let init = decimal(n / 10);
        lemma_decimal_reads_back(n / 10);
        assert(s.drop_last() =~= init);
        assert(s[0] == init[0]);
        assert forall|i: int| 0 <= i < s.len() implies '0' <= #[trigger] s[i] <= '9' by {
            if i < init.len() {
                assert(s[i] == init[i]);
            }
        }
    }
}

/// Different numbers have different texts.
pub proof fn lemma_decimal_distinct(m: nat, n: nat)
    ensures
        decimal(m) == decimal(n) ==> m == n,
{
    lemma_decimal_reads_back(m);
    lemma_decimal_reads_back(n);
}

/// Writes a number in decimal notation.
pub fn decimal_text(n: u64) -> (r: String)
    ensures
        r@ == decimal(n as nat),
        r@.fold_left(0int, |v: int, c: char| 10 * v + (c as int - '0' as int)) == n,
    decreases n,
{
    proof {
        lemma_decimal_reads_back(n as nat);
    }
    let mut r: String = if n < 10 {
        String::new()
    } else {
        decimal_text(n / 10)
    };
    let d: u8 = 0x30 + (n % 10) as u8;
    r.push(d as char);
    r
}

/// The offset of the first line feed of a text, or the end of a text without one.
pub open spec fn line_end(s: Seq<char>) -> int
    decreases s.len(),
{
    if s.len() == 0 || s[0] == '\n' {
        0
    } else {
        1 + line_end(s.drop_first())
    }
}

/// A line without the one carriage return that stood directly before its line feed.
pub open spec fn without_return(line: Seq<char>) -> Seq<char> {
    if line.len() > 0 && line.last() == '\r' {
        line.drop_last()
    } else {
        line
    }
}

/// The lines of a text. A line ends with a line feed, or with a carriage return and a line feed,
/// neither of which belongs to it; the last line may lack the line feed.
pub open spec fn lines_of(s: Seq<char>) -> Seq<Seq<char>>
    decreases s.len(),
{
    if s.len() == 0 {
        seq![]
    } else {
        let end = line_end(s);
        if 0 <= end < s.len() {
            seq![without_return(s.take(end))] + lines_of(s.skip(end + 1))
        } else {
            seq![s]
        }
    }
}

proof fn lemma_line_end(head: Seq<char>, rest: Seq<char>)
    requires
        !head.contains('\n'),
        rest.len() == 0 || rest[0] == '\n',
    ensures
        line_end(head + rest) == head.len(),
    decreases head.len(),
{
    if head.len() == 0 {
        assert(head + rest =~= rest);
    } else {
        assert(head.contains(head[0]));
        let tail = head.drop_first();
        assert forall|i: int| 0 <= i < tail.len() implies tail[i] != '\n' by {
            assert(head.contains(head[i + 1]));
        }
        assert((head + rest).drop_first() =~= tail + rest);
        lemma_line_end(tail, rest);
    }
}

/// What a line is: all of a text without a line feed, unless it is empty; and otherwise what stands
/// before the first line feed, or before the carriage return and the line feed, with the lines of
/// the rest behind it.
pub proof fn lemma_lines_of(line: Seq<char>, rest: Seq<char>)
    requires
        !line.contains('\n'),
    ensures
        lines_of(line) == if line.len() == 0 {
            seq![]
        } else {
            seq![line]
        },
        line.len() == 0 || line.last() != '\r' ==> lines_of(line + seq!['\n'] + rest) == seq![line]
            + lines_of(rest),
        lines_of(line + seq!['\r', '\n'] + rest) == seq![line] + lines_of(rest),
{
    lemma_line_end(line, seq![]);
    assert(line + Seq::<char>::empty() =~= line);
    let feed = seq!['\n'] + rest;
    let whole = line + seq!['\n'] + rest;
    assert(whole =~= line + feed);
    lemma_line_end(line, feed);
    assert(whole.take(line.len() as int) =~= line);
    assert(whole.skip(line.len() as int + 1) =~= rest);
    let returned = line.push('\r');
    assert forall|i: int| 0 <= i < returned.len() implies returned[i] != '\n' by {
        if i < line.len() {
            assert(line.contains(line[i]));
        }
    }
    let both = line + seq!['\r', '\n'] + rest;
    assert(both =~= returned + feed);
    lemma_line_end(returned, feed);
    assert(both.take(returned.len() as int) =~= returned);
    assert(both.skip(returned.len() as int + 1) =~= rest);
    assert(returned.drop_last() =~= line);
}

/// Splits a text into its lines.
pub fn split_lines(s: &str) -> (r: Vec<String>)
    ensures
        texts(r@) == lines_of(s@),
{
    let mut done: Vec<String> = Vec::new();
    let mut current: String = String::new();
    assert(texts(done@) + lines_of(current@ + s@) =~= lines_of(s@)) by {
        assert(current@ + s@ =~= s@);
    }
    assert(s@.skip(0) =~= s@);
    for c in it: s.chars()
        invariant
            it.seq() == s@,
            !current@.contains('\n'),
            lines_of(s@) == texts(done@) + lines_of(current@ + s@.skip(it.index())),
    {
        let ghost i = it.index();
        let ghost rest = s@.skip(i + 1);
        let ghost before = texts(done@);
        let ghost line = current@;
        assert(s@.skip(i) =~= seq![c] + rest);
        if c == '\n' {
            proof {
                lemma_line_end(line, s@.skip(i));
                let all = line + s@.skip(i);
                assert(all.take(line.len() as int) =~= line);
                assert(all.skip(line.len() as int + 1) =~= rest);
            }
            let ended: String = drop_return(current);
            done.push(ended);
            current = String::new();
            assert(texts(done@) =~= before.push(without_return(line)));
            assert(current@ + rest =~= rest);
            assert(before.push(without_return(line)) + lines_of(rest) =~= before + (seq![
                without_return(line),
            ] + lines_of(rest)));
        } else {
            current.push(c);
            assert(current@ + rest =~= line + s@.skip(i));
            assert forall|k: int| 0 <= k < current@.len() implies current@[k] != '\n' by {
                if k < line.len() {
                    assert(line.contains(line[k]));
                }
            }
        }
    }
    assert(current@ + s@.skip(s@.len() as int) =~= current@);
    if current.as_str().is_empty() {
        assert(texts(done@) + lines_of(current@) =~= texts(done@));
        return done;
    }
    let ghost before = texts(done@);
    proof {
        lemma_line_end(current@, seq![]);
        assert(current@ + Seq::<char>::empty() =~= current@);
    }
    let ghost line = current@;
    done.push(current);
    assert(texts(done@) =~= before + seq![line]);
    done
}

/// Takes one carriage return off the end of a line.
fn drop_return(line: String) -> (r: String)
    ensures
        r@ == without_return(line@),
{
    let n: usize = line.as_str().unicode_len();
    if n > 0 && line.as_str().get_char(n - 1) == '\r' {
        String::from_str(line.as_str().substring_char(0, n - 1))
    } else {
        line
    }
}

/// Whether a character ends a line or part of a line ending.
pub open spec fn is_line_ending(c: char) -> bool {
    c == '\r' || c == '\n'
}

/// A text without the line feeds and carriage returns at its end.
pub open spec fn trimmed(s: Seq<char>) -> Seq<char>
    decreases s.len(),
{
    if s.len() > 0 && is_line_ending(s.last()) {
        trimmed(s.drop_last())
    } else {
        s
    }
}

/// What is trimmed: all carriage returns and line feeds at the end of a text, and nothing else.
pub proof fn lemma_trimmed(s: Seq<char>)
    ensures
        ({
            let n = trimmed(s).len() as int;
            &&& n <= s.len()
            &&& trimmed(s) == s.take(n)
            &&& forall|i: int| n <= i < s.len() ==> #[trigger] s[i] == '\r' || s[i] == '\n'
            &&& n > 0 ==> s[n - 1] != '\r' && s[n - 1] != '\n'
        }),
    decreases s.len(),
{
    if s.len() > 0 && is_line_ending(s.last()) {
        let init = s.drop_last();
        let n = trimmed(s).len() as int;
        lemma_trimmed(init);
        assert(s.take(n) =~= init.take(n));
        assert forall|i: int| n <= i < s.len() implies #[trigger] s[i] == '\r' || s[i] == '\n' by {
            if i < init.len() {
                assert(s[i] == init[i]);
            }
        }
        if n > 0 {
            assert(s[n - 1] == init[n - 1]);
        }
    } else {
        assert(s.take(s.len() as int) =~= s);
    }
}

/// Takes all line feeds and carriage returns off the end of a text.
pub fn trim_line_end<'a>(s: &'a str) -> (r: &'a str)
    ensures
        r@ == trimmed(s@),
{
    let len: usize = s.unicode_len();
    let mut count: usize = 0;
    let mut keep: usize = 0;
    for c in it: s.chars()
        invariant
            it.seq() == s@,
            len == s@.len(),
            count == it.index(),
            keep <= count,
            trimmed(s@.take(count as int)) == s@.take(keep as int),
    {
        assert(s@.take(count + 1).drop_last() =~= s@.take(count as int));
        count = count + 1;
        if c != '\r' && c != '\n' {
            keep = count;
        }
    }
    assert(s@.take(len as int) =~= s@);
    assert(s@.subrange(0, keep as int) =~= s@.take(keep as int));
    s.substring_char(0, keep)
}

/// The texts of a list of strings are those of the strings, one for one.
pub proof fn lemma_texts(list: Seq<String>, s: String)
    ensures
        texts(seq![]) == Seq::<Seq<char>>::empty(),
        texts(list.push(s)) == texts(list).push(s@),
{
    assert(texts(seq![]) =~= Seq::<Seq<char>>::empty());
    assert(texts(list.push(s)) =~= texts(list).push(s@));
}

} // verus!
