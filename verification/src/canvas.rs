//! Measuring and normalising an art: its size in display columns, lines
//! padded to one width, and every line made to start with a placeholder.

use crate::error::RecolorError;
use crate::placeholder::{
    empty_table, lemma_occurrences_from, occurrences, single_line_table, strip_tokens, token,
    token_text, valid_slot, Scanner,
};
use crate::text::{
    byte_len, bytes_of, join_lines, lemma_bytes_of_valid, lines_of, push_text, slices_bytes,
    spaces, split_lines, strings_bytes, text_of, SPACE,
};
use unicode_segmentation::UnicodeSegmentation;
use vstd::prelude::*;
use vstd::string::*;
use vstd::utf8::*;

verus! {

/// The number of grapheme clusters of a text: of extended clusters where
/// `extended` is set, of legacy clusters where it is not.
pub uninterp spec fn grapheme_count(text: Seq<char>, extended: bool) -> nat;

/// `UnicodeSegmentation::graphemes`, counted.
#[verifier::external_body]
fn count_graphemes(text: &str, extended: bool) -> (n: usize)
    ensures
        n == grapheme_count(text@, extended),
{
    text.graphemes(extended).count()
}

/// The display columns of a piece of text that holds no placeholder: its
/// extended grapheme clusters, so that a glyph of several code points
/// takes one column.
pub open spec fn columns(text: Seq<u8>) -> nat {
    grapheme_count(decode_utf8(text), true)
}

/// The display columns of a line: those of the line without its
/// placeholders, which take no column.
pub open spec fn display_width(line: Seq<u8>) -> nat {
    columns(strip_tokens(line))
}

/// The greatest display width among the lines; 0 for none.
pub open spec fn widest(lines: Seq<Seq<u8>>) -> nat
    decreases lines.len(),
{
    if lines.len() == 0 {
        0
    } else {
        let w = display_width(lines.last());
        let rest = widest(lines.drop_last());
        if w > rest {
            w
        } else {
            rest
        }
    }
}

/// The width of an art: the display width of its widest line.
pub open spec fn art_width(art: Seq<u8>) -> nat {
    widest(lines_of(art))
}

/// The height of an art: the number of its lines.
pub open spec fn art_height(art: Seq<u8>) -> nat {
    lines_of(art).len()
}

/// No line is wider than the widest.
pub proof fn lemma_widest_bounds(lines: Seq<Seq<u8>>, i: int)
    requires
        0 <= i < lines.len(),
    ensures
        display_width(lines[i]) <= widest(lines),
    decreases lines.len(),
{
    if i < lines.len() - 1 {
        lemma_widest_bounds(lines.drop_last(), i);
    }
}

/// The empty table holds no line break.
pub proof fn lemma_empty_table_single()
    ensures
        single_line_table(empty_table()),
{
}

/// The display width of `line`.
fn line_width(scanner: &Scanner, line: &str) -> (w: usize)
    ensures
        w == display_width(line.spec_bytes()),
{
    let stripped = scanner.strip(line);
    proof {
        lemma_bytes_of_valid(stripped@);
    }
    count_graphemes(stripped.as_str(), true)
}

/// The display widths of the lines of `art`, and the greatest of them.
pub(crate) fn measure(scanner: &Scanner, lines: &Vec<&str>) -> (r: (Vec<usize>, usize))
    ensures
        r.0@.len() == lines@.len(),
        forall|i: int|
            0 <= i < lines@.len() ==> #[trigger] r.0@[i] == display_width(lines@[i].spec_bytes()),
        r.1 == widest(slices_bytes(lines@)),
{
    let mut widths: Vec<usize> = Vec::new();
    let mut width: usize = 0;
    let mut i: usize = 0;
    let ghost all = slices_bytes(lines@);
    while i < lines.len()
        invariant
            i <= lines@.len(),
            all == slices_bytes(lines@),
            widths@.len() == i,
            forall|j: int|
                0 <= j < i ==> #[trigger] widths@[j] == display_width(lines@[j].spec_bytes()),
            width == widest(all.take(i as int)),
        decreases lines.len() - i,
    {
        let w = line_width(scanner, lines[i]);
        proof {
            assert(all.take(i + 1).drop_last() =~= all.take(i as int));
            assert(all.take(i + 1).last() == lines@[i as int].spec_bytes());
        }
        if w > width {
            width = w;
        }
        widths.push(w);
        i += 1;
    }
    proof {
        assert(all.take(i as int) =~= all);
    }
    (widths, width)
}

/// The width and height of an art, placeholders not counted: the width is
/// the display width of the widest line in grapheme clusters, the height
/// the number of lines. Fails with `DimensionOverflow`, and only then,
/// where one of the two exceeds 255.
pub fn ascii_size(scanner: &Scanner, asc: &str) -> (r: Result<(u8, u8), RecolorError>)
    ensures
        match r {
            Ok((width, height)) => width == art_width(asc.spec_bytes()) && height == art_height(
                asc.spec_bytes(),
            ),
            Err(e) => e == RecolorError::DimensionOverflow && (art_width(asc.spec_bytes()) > 255
                || art_height(asc.spec_bytes()) > 255),
        },
{
    let lines = split_lines(asc);
    let (_, width) = measure(scanner, &lines);
    let height = lines.len();
    if width > 255 || height > 255 {
        Err(RecolorError::DimensionOverflow)
    } else {
        Ok((width as u8, height as u8))
    }
}

/// The line of index `i` padded with spaces to the width of the art.
pub open spec fn padded_line(lines: Seq<Seq<u8>>, i: int) -> Seq<u8> {
    lines[i] + spaces((widest(lines) - display_width(lines[i])) as nat)
}

/// The art with every line padded to the art's width.
pub open spec fn normalized(art: Seq<u8>) -> Seq<u8> {
    let lines = lines_of(art);
    text_of(Seq::new(lines.len(), |i: int| padded_line(lines, i)))
}

/// Pads every line with trailing spaces to the width of the art, so that
/// all lines have the same width.
pub fn normalize_ascii(scanner: &Scanner, asc: &str) -> (r: String)
    ensures
        bytes_of(r@) == normalized(asc.spec_bytes()),
{
    let lines = split_lines(asc);
    let (widths, width) = measure(scanner, &lines);
    let ghost all = lines_of(asc.spec_bytes());
    let mut out: Vec<String> = Vec::new();
    let mut i: usize = 0;
    while i < lines.len()
        invariant
            i <= lines@.len(),
            all == slices_bytes(lines@),
            widths@.len() == lines@.len(),
            forall|j: int|
                0 <= j < lines@.len() ==> #[trigger] widths@[j] == display_width(
                    lines@[j].spec_bytes(),
                ),
            width == widest(all),
            out@.len() == i,
            forall|j: int| 0 <= j < i ==> bytes_of(#[trigger] out@[j]@) == padded_line(all, j),
        decreases lines.len() - i,
    {
        let mut line = String::from_str(lines[i]);
        proof {
            lemma_widest_bounds(all, i as int);
            assert(all[i as int] == lines@[i as int].spec_bytes());
        }
        let pad = width - widths[i];
        let mut k: usize = 0;
        while k < pad
            invariant
                k <= pad,
                bytes_of(line@) == all[i as int] + spaces(k as nat),
            decreases pad - k,
        {
            let space = " ";
            proof {
                reveal_strlit(" ");
                assert(is_ascii(space));
                is_ascii_spec_bytes(space);
                assert(space.spec_bytes() =~= seq![SPACE]);
                assert(spaces(k as nat) + seq![SPACE] =~= spaces((k + 1) as nat));
            }
            push_text(&mut line, space);
            proof {
                assert(bytes_of(line@) =~= all[i as int] + spaces((k + 1) as nat));
            }
            k += 1;
        }
        out.push(line);
        i += 1;
    }
    proof {
        assert(strings_bytes(out@) =~= Seq::new(all.len(), |j: int| padded_line(all, j)));
    }
    join_lines(&out)
}

/// True when the first placeholder of the line has nothing but spaces
/// before it.
pub open spec fn leads_with_token(line: Seq<u8>) -> bool {
    let found = occurrences(line);
    found.len() > 0 && forall|k: int| 0 <= k < found[0].start ==> line[k] == SPACE
}

/// The slot that is active behind a line: that of its last placeholder,
/// or the one that was active before it where it has none.
pub open spec fn carry_after(line: Seq<u8>, carry: Option<u8>) -> Option<u8> {
    let found = occurrences(line);
    if found.len() > 0 {
        Some(found.last().slot)
    } else {
        carry
    }
}

/// The slot that is active where line `i` begins: that of the last
/// placeholder on the lines before it, if there is one.
pub open spec fn carry_before(lines: Seq<Seq<u8>>, i: int) -> Option<u8>
    decreases i,
{
    if i <= 0 {
        None
    } else {
        carry_after(lines[i - 1], carry_before(lines, i - 1))
    }
}

/// Line `i` with its starting placeholder: the line itself where it
/// leads with one, else the token of the active slot and the line.
pub open spec fn filled_line(lines: Seq<Seq<u8>>, i: int) -> Seq<u8> {
    if leads_with_token(lines[i]) {
        lines[i]
    } else {
        match carry_before(lines, i) {
            Some(slot) => token(slot) + lines[i],
            None => lines[i],
        }
    }
}

/// True when every line leads with a placeholder or has an active slot to
/// take over.
pub open spec fn fillable(lines: Seq<Seq<u8>>) -> bool {
    forall|i: int|
        0 <= i < lines.len() ==> leads_with_token(#[trigger] lines[i]) || carry_before(lines, i)
            is Some
}

/// True when line `i` cannot be filled: it does not lead with a
/// placeholder, and no slot is active where it begins.
pub open spec fn stuck(lines: Seq<Seq<u8>>, i: int) -> bool {
    !leads_with_token(lines[i]) && carry_before(lines, i) is None
}

/// The first line at or behind `i` that cannot be filled, or the number of
/// lines where there is none.
pub open spec fn stuck_from(lines: Seq<Seq<u8>>, i: int) -> int
    decreases lines.len() - i,
{
    if i < 0 || i >= lines.len() {
        lines.len() as int
    } else if stuck(lines, i) {
        i
    } else {
        stuck_from(lines, i + 1)
    }
}

/// The first line that cannot be filled.
pub open spec fn stuck_line(lines: Seq<Seq<u8>>) -> int {
    stuck_from(lines, 0)
}

/// The art with the missing starting placeholders filled in.
pub open spec fn filled(art: Seq<u8>) -> Seq<u8> {
    let lines = lines_of(art);
    text_of(Seq::new(lines.len(), |i: int| filled_line(lines, i)))
}

/// True when the first `upto` bytes of `line` are spaces.
fn all_spaces(line: &str, upto: usize) -> (b: bool)
    requires
        upto <= line.spec_bytes().len(),
    ensures
        b == forall|k: int| 0 <= k < upto ==> line.spec_bytes()[k] == SPACE,
{
    let bytes = line.as_bytes();
    let mut k: usize = 0;
    while k < upto
        invariant
            k <= upto <= bytes@.len(),
            bytes@ == line.spec_bytes(),
            forall|j: int| 0 <= j < k ==> bytes@[j] == SPACE,
        decreases upto - k,
    {
        if bytes[k] != SPACE {
            return false;
        }
        k += 1;
    }
    true
}

/// Makes every line start with a placeholder: a line that does not lead
/// with one gets the token of the last placeholder seen on the lines
/// before it. Fails with `MissingColorState`, and only then, where such a
/// line has no placeholder on any line before it; the error names the
/// first such line.
pub fn fill_starting(scanner: &Scanner, asc: &str) -> (r: Result<String, RecolorError>)
    ensures
        match r {
            Ok(text) => fillable(lines_of(asc.spec_bytes())) && bytes_of(text@) == filled(
                asc.spec_bytes(),
            ),
            Err(e) => !fillable(lines_of(asc.spec_bytes())) && e == (
            RecolorError::MissingColorState {
                line: stuck_line(lines_of(asc.spec_bytes())) as usize,
            }),
        },
{
    let lines = split_lines(asc);
    let ghost all = lines_of(asc.spec_bytes());
    let mut out: Vec<String> = Vec::new();
    let mut carry: Option<u8> = None;
    let mut i: usize = 0;
    while i < lines.len()
        invariant
            i <= lines@.len(),
            all == slices_bytes(lines@),
            all == lines_of(asc.spec_bytes()),
            carry == carry_before(all, i as int),
            carry matches Some(slot) ==> valid_slot(slot),
            stuck_line(all) == stuck_from(all, i as int),
            out@.len() == i,
            forall|j: int| 0 <= j < i ==> bytes_of(#[trigger] out@[j]@) == filled_line(all, j),
            forall|j: int|
                0 <= j < i ==> leads_with_token(#[trigger] all[j]) || carry_before(all, j) is Some,
        decreases lines.len() - i,
    {
        let line = lines[i];
        let _len = byte_len(line);
        let found = scanner.find(line);
        proof {
            assert(all[i as int] == line.spec_bytes());
            lemma_occurrences_from(line.spec_bytes(), 0);
        }
        let leads = found.len() > 0 && all_spaces(line, found[0].start);
        let mut text = String::new();
        proof {
            assert(bytes_of(text@) =~= Seq::<u8>::empty());
        }
        if !leads {
            match carry {
                Some(slot) => {
                    push_text(&mut text, token_text(slot));
                },
                None => {
                    proof {
                        assert(!leads_with_token(all[i as int]));
                        assert(carry_before(all, i as int) is None);
                        assert(stuck(all, i as int));
                    }
                    return Err(RecolorError::MissingColorState { line: i });
                },
            }
        }
        push_text(&mut text, line);
        proof {
            assert(bytes_of(text@) =~= filled_line(all, i as int));
            assert(!stuck(all, i as int));
        }
        out.push(text);
        if found.len() > 0 {
            carry = Some(found[found.len() - 1].slot);
        }
        i += 1;
    }
    proof {
        assert(strings_bytes(out@) =~= Seq::new(all.len(), |j: int| filled_line(all, j)));
    }
    Ok(join_lines(&out))
}

} // verus!
