//! The byte-level model of text: UTF-8 bytes, lines and joins.

use itertools::Itertools;
use vstd::prelude::*;
use vstd::string::*;
use vstd::utf8::*;

verus! {

/// The line break.
pub const NEWLINE: u8 = 0x0a;

/// The space with which lines are padded and behind which a leading
/// placeholder may stand.
pub const SPACE: u8 = 0x20;

/// The UTF-8 bytes of a character sequence: the model of a `String`.
pub open spec fn bytes_of(chars: Seq<char>) -> Seq<u8> {
    encode_utf8(chars)
}

/// The byte contents of a vector of string slices.
pub open spec fn slices_bytes(v: Seq<&str>) -> Seq<Seq<u8>> {
    Seq::new(v.len(), |i: int| v[i].spec_bytes())
}

/// The byte contents of a vector of strings.
pub open spec fn strings_bytes(v: Seq<String>) -> Seq<Seq<u8>> {
    Seq::new(v.len(), |i: int| bytes_of(v[i]@))
}

/// Index of the first line break in `s`, or `s.len()` where there is none.
pub open spec fn first_newline(s: Seq<u8>) -> int
    decreases s.len(),
{
    if s.len() == 0 || s[0] == NEWLINE {
        0
    } else {
        1 + first_newline(s.drop_first())
    }
}

/// The lines of `s`: the pieces between line breaks. There is always at
/// least one line, and a trailing line break is followed by an empty line.
pub open spec fn lines_of(s: Seq<u8>) -> Seq<Seq<u8>>
    decreases s.len(),
{
    let i = first_newline(s);
    if 0 <= i < s.len() {
        seq![s.take(i)] + lines_of(s.skip(i + 1))
    } else {
        seq![s]
    }
}

/// The pieces with `sep` between each two neighbours; nothing for no
/// pieces.
pub open spec fn joined(pieces: Seq<Seq<u8>>, sep: Seq<u8>) -> Seq<u8>
    decreases pieces.len(),
{
    if pieces.len() == 0 {
        Seq::empty()
    } else if pieces.len() == 1 {
        pieces[0]
    } else {
        pieces[0] + sep + joined(pieces.drop_first(), sep)
    }
}

/// The text made of the given lines: they are joined by single line breaks.
pub open spec fn text_of(lines: Seq<Seq<u8>>) -> Seq<u8> {
    joined(lines, seq![NEWLINE])
}

/// True when `s` holds no line break.
pub open spec fn single_line(s: Seq<u8>) -> bool {
    forall|k: int| 0 <= k < s.len() ==> s[k] != NEWLINE
}

/// `n` spaces.
pub open spec fn spaces(n: nat) -> Seq<u8> {
    Seq::new(n, |i: int| SPACE)
}

/// Encoding distributes over concatenation.
pub proof fn lemma_bytes_of_concat(a: Seq<char>, b: Seq<char>)
    ensures
        bytes_of(a + b) == bytes_of(a) + bytes_of(b),
    decreases a.len(),
{
    if a.len() == 0 {
        assert(a + b =~= b);
        assert(bytes_of(a) + bytes_of(b) =~= bytes_of(b));
    } else {
        assert((a + b).drop_first() =~= a.drop_first() + b);
        lemma_bytes_of_concat(a.drop_first(), b);
        assert(bytes_of(a + b) =~= bytes_of(a) + bytes_of(b));
    }
}

/// The bytes of a string are valid UTF-8 and decode to its characters.
pub proof fn lemma_bytes_of_valid(chars: Seq<char>)
    ensures
        valid_utf8(bytes_of(chars)),
        decode_utf8(bytes_of(chars)) == chars,
{
    encode_utf8_valid_utf8(chars);
    encode_utf8_decode_utf8(chars);
}

/// An ASCII byte of valid UTF-8 starts a character and ends it.
pub proof fn lemma_ascii_boundary(b: Seq<u8>, i: int)
    requires
        valid_utf8(b),
        0 <= i < b.len(),
        b[i] < 0x80,
    ensures
        is_char_boundary(b, i),
        is_char_boundary(b, i + 1),
{
    is_char_boundary_iff_not_is_continuation_byte(b, i);
    if i + 1 == b.len() {
        is_char_boundary_start_end_of_seq(b);
    } else {
        valid_utf8_split(b, i);
        let t = b.subrange(i, b.len() as int);
        assert(t[0] == b[i]);
        assert(length_of_first_scalar(t) == 1);
        let u = pop_first_scalar(t);
        assert(valid_utf8(u));
        assert(u.len() > 0);
        assert(u[0] == b[i + 1]);
        assert(valid_first_scalar(u));
        assert(!is_continuation_byte(u[0]));
        is_char_boundary_iff_not_is_continuation_byte(b, i + 1);
    }
}

/// Where no line break stands before index `n`, the first one is not
/// before `n`; it is at `n` when `n` ends the text or holds one.
pub proof fn lemma_first_newline(s: Seq<u8>, n: int)
    requires
        0 <= n <= s.len(),
        forall|k: int| 0 <= k < n ==> s[k] != NEWLINE,
        n == s.len() || s[n] == NEWLINE,
    ensures
        first_newline(s) == n,
    decreases n,
{
    if n > 0 {
        lemma_first_newline(s.drop_first(), n - 1);
    }
}

/// Every line is free of line breaks.
pub proof fn lemma_lines_single(s: Seq<u8>)
    ensures
        lines_of(s).len() >= 1,
        forall|i: int| 0 <= i < lines_of(s).len() ==> single_line(#[trigger] lines_of(s)[i]),
    decreases s.len(),
{
    lemma_first_newline_bounds(s);
    let i = first_newline(s);
    if 0 <= i < s.len() {
        lemma_lines_single(s.skip(i + 1));
        let rest = lines_of(s.skip(i + 1));
        assert forall|j: int| 0 <= j < lines_of(s).len() implies single_line(
            #[trigger] lines_of(s)[j],
        ) by {
            if j == 0 {
                assert(lines_of(s)[0] == s.take(i));
            } else {
                assert(lines_of(s)[j] == rest[j - 1]);
            }
        }
    } else {
        assert(lines_of(s)[0] == s);
    }
}

/// The first line break lies within the text, and nothing before it is one.
pub proof fn lemma_first_newline_bounds(s: Seq<u8>)
    ensures
        0 <= first_newline(s) <= s.len(),
        forall|k: int| 0 <= k < first_newline(s) ==> s[k] != NEWLINE,
        first_newline(s) < s.len() ==> s[first_newline(s)] == NEWLINE,
    decreases s.len(),
{
    if s.len() == 0 || s[0] == NEWLINE {
    } else {
        lemma_first_newline_bounds(s.drop_first());
        assert forall|k: int| 0 <= k < first_newline(s) implies s[k] != NEWLINE by {
            if k > 0 {
                assert(s[k] == s.drop_first()[k - 1]);
            }
        }
        assert(first_newline(s) < s.len() ==> s[first_newline(s)] == s.drop_first()[first_newline(
            s,
        ) - 1]);
    }
}

/// Splitting what was joined gives the lines back, where each is free of
/// line breaks and there is at least one.
pub proof fn lemma_lines_of_join(lines: Seq<Seq<u8>>)
    requires
        lines.len() >= 1,
        forall|i: int| 0 <= i < lines.len() ==> single_line(#[trigger] lines[i]),
    ensures
        lines_of(text_of(lines)) == lines,
    decreases lines.len(),
{
    let joined = text_of(lines);
    assert(single_line(lines[0]));
    if lines.len() == 1 {
        lemma_first_newline(joined, joined.len() as int);
        assert(lines_of(joined) =~= lines);
    } else {
        let rest = lines.drop_first();
        assert forall|i: int| 0 <= i < rest.len() implies single_line(#[trigger] rest[i]) by {
            assert(rest[i] == lines[i + 1]);
        }
        lemma_lines_of_join(rest);
        let n = lines[0].len() as int;
        assert(joined[n] == NEWLINE);
        lemma_first_newline(joined, n);
        assert(joined.take(n) =~= lines[0]);
        assert(joined.skip(n + 1) =~= text_of(rest));
        assert(lines_of(joined) =~= lines);
    }
}

/// A prefix without line breaks joins the first line of what follows it.
pub proof fn lemma_lines_of_prefixed(p: Seq<u8>, t: Seq<u8>)
    requires
        single_line(p),
    ensures
        lines_of(p + t).len() == lines_of(t).len(),
        lines_of(p + t)[0] == p + lines_of(t)[0],
        forall|i: int|
            1 <= i < lines_of(t).len() ==> #[trigger] lines_of(p + t)[i] == lines_of(t)[i],
{
    lemma_first_newline_bounds(t);
    let i = first_newline(t);
    let n = p.len() as int;
    let s = p + t;
    assert(i < t.len() ==> s[n + i] == t[i]);
    assert forall|k: int| 0 <= k < n + i implies s[k] != NEWLINE by {
        if k >= n {
            assert(s[k] == t[k - n]);
        }
    }
    lemma_first_newline(s, n + i);
    if i < t.len() {
        assert(s.take(n + i) =~= p + t.take(i));
        assert(s.skip(n + i + 1) =~= t.skip(i + 1));
    }
}

/// A line break in front adds an empty first line.
pub proof fn lemma_lines_of_break(t: Seq<u8>)
    ensures
        lines_of(seq![NEWLINE] + t) == seq![Seq::<u8>::empty()] + lines_of(t),
{
    let s = seq![NEWLINE] + t;
    assert(first_newline(s) == 0);
    assert(s.take(0) =~= Seq::<u8>::empty());
    assert(s.skip(1) =~= t);
}

/// `itertools::Itertools::join` over the strings: each is written as it
/// is, with `sep` between neighbours; the empty string for none.
#[verifier::external_body]
pub(crate) fn join_strings(pieces: &Vec<String>, sep: &str) -> (r: String)
    ensures
        bytes_of(r@) == joined(strings_bytes(pieces@), sep.spec_bytes()),
{
    pieces.iter().join(sep)
}

/// The lines joined by line breaks into one text.
pub fn join_lines(lines: &Vec<String>) -> (r: String)
    ensures
        bytes_of(r@) == text_of(strings_bytes(lines@)),
{
    let sep = "\n";
    proof {
        reveal_strlit("\n");
        assert(is_ascii(sep));
        is_ascii_spec_bytes(sep);
        assert(sep.spec_bytes() =~= seq![NEWLINE]);
    }
    join_strings(lines, sep)
}

/// The length of `s` in bytes.
pub fn byte_len(s: &str) -> (n: usize)
    ensures
        n == s.spec_bytes().len(),
{
    s.as_bytes().len()
}

/// Appends `s` to `dst`.
pub fn push_text(dst: &mut String, s: &str)
    ensures
        bytes_of(final(dst)@) == bytes_of(old(dst)@) + s.spec_bytes(),
{
    proof {
        lemma_bytes_of_concat(dst@, s@);
    }
    dst.append(s);
}

/// The part of `s` between two character boundaries.
pub(crate) fn slice<'a>(s: &'a str, from: usize, to: usize) -> (r: &'a str)
    requires
        from <= to <= s.spec_bytes().len(),
        is_char_boundary(s.spec_bytes(), from as int),
        is_char_boundary(s.spec_bytes(), to as int),
    ensures
        r.spec_bytes() == s.spec_bytes().subrange(from as int, to as int),
{
    let (head, _) = s.split_at(to);
    proof {
        let b = s.spec_bytes();
        let h = head.spec_bytes();
        lemma_bytes_of_valid(s@);
        lemma_bytes_of_valid(head@);
        if from == to {
            is_char_boundary_start_end_of_seq(h);
        } else {
            is_char_boundary_iff_not_is_continuation_byte(b, from as int);
            assert(h[from as int] == b[from as int]);
            is_char_boundary_iff_not_is_continuation_byte(h, from as int);
        }
    }
    let (_, r) = head.split_at(from);
    proof {
        assert(r.spec_bytes() =~= s.spec_bytes().subrange(from as int, to as int));
    }
    r
}

/// Splits `s` at its line breaks.
pub fn split_lines<'a>(s: &'a str) -> (lines: Vec<&'a str>)
    ensures
        slices_bytes(lines@) == lines_of(s.spec_bytes()),
{
    let bytes = s.as_bytes();
    let n = bytes.len();
    let mut lines: Vec<&str> = Vec::new();
    let mut start: usize = 0;
    let mut i: usize = 0;
    proof {
        lemma_bytes_of_valid(s@);
        is_char_boundary_start_end_of_seq(bytes@);
        assert(bytes@.skip(0) =~= bytes@);
        assert(slices_bytes(lines@) =~= Seq::<Seq<u8>>::empty());
    }
    while i < n
        invariant
            n == bytes@.len(),
            bytes@ == s.spec_bytes(),
            valid_utf8(bytes@),
            start <= i <= n,
            is_char_boundary(bytes@, start as int),
            forall|k: int| start <= k < i ==> bytes@[k] != NEWLINE,
            lines_of(bytes@) == slices_bytes(lines@) + lines_of(bytes@.skip(start as int)),
        decreases n - i,
    {
        if bytes[i] == NEWLINE {
            proof {
                lemma_ascii_boundary(bytes@, i as int);
            }
            let line = slice(s, start, i);
            let ghost before = lines@;
            lines.push(line);
            proof {
                let tail = bytes@.skip(start as int);
                lemma_first_newline(tail, i - start);
                assert(tail.take(i - start) =~= bytes@.subrange(start as int, i as int));
                assert(tail.skip(i - start + 1) =~= bytes@.skip(i + 1));
                assert(slices_bytes(lines@) =~= slices_bytes(before).push(line.spec_bytes()));
            }
            start = i + 1;
        }
        i += 1;
    }
    proof {
        is_char_boundary_start_end_of_seq(bytes@);
    }
    let line = slice(s, start, n);
    let ghost before = lines@;
    lines.push(line);
    proof {
        let tail = bytes@.skip(start as int);
        lemma_first_newline(tail, tail.len() as int);
        assert(tail =~= bytes@.subrange(start as int, n as int));
        assert(slices_bytes(lines@) =~= slices_bytes(before).push(line.spec_bytes()));
    }
    lines
}

} // verus!
