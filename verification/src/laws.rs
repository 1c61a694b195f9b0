//! What holds of the engine as a whole, proved from the model.

use crate::alignment::{
    answer_fits, horizontal, horizontal_rows, plan, recolored, AlignmentModel, AnswerModel,
    EscapesModel, RequestModel, TerminalTheme,
};
use crate::canvas::{
    art_height, art_width, carry_before, columns, display_width, fillable, filled, filled_line,
    leads_with_token, lemma_empty_table_single, lemma_widest_bounds, normalized, padded_line,
    stuck_line, widest,
};
use crate::error::RecolorError;
use crate::placeholder::{
    empty_table, lemma_lines_of_replace, lemma_occurrences_from, lemma_replace_without_tokens,
    occurrences, replace_tokens, single_line_table, slot_table, strip_tokens, token, token_at,
    valid_slot,
};
use crate::text::{
    first_newline, lemma_first_newline_bounds, lemma_lines_of_join, lemma_lines_single, lines_of,
    single_line, spaces, text_of, SPACE,
};
use vstd::prelude::*;

verus! {

/// Stripping is idempotent wherever it leaves no placeholder behind: to
/// strip such an art twice is to strip it once.
///
/// Stripping can uncover a placeholder whose halves stood on both sides
/// of another one; such arts are left out.
pub proof fn lemma_strip_idempotent(art: Seq<u8>)
    requires
        occurrences(strip_tokens(art)).len() == 0,
    ensures
        strip_tokens(strip_tokens(art)) == strip_tokens(art),
{
    let once = strip_tokens(art);
    lemma_replace_without_tokens(once, 0, empty_table());
    assert(once.skip(0) =~= once);
}

/// Lines of equal display widths have the same greatest width.
proof fn lemma_widest_same(a: Seq<Seq<u8>>, b: Seq<Seq<u8>>)
    requires
        a.len() == b.len(),
        forall|i: int| 0 <= i < a.len() ==> display_width(#[trigger] a[i]) == display_width(b[i]),
    ensures
        widest(a) == widest(b),
    decreases a.len(),
{
    if a.len() > 0 {
        assert(display_width(a.last()) == display_width(b.last())) by {
            assert(a.last() == a[a.len() - 1]);
        }
        assert forall|i: int| 0 <= i < a.drop_last().len() implies display_width(
            #[trigger] a.drop_last()[i],
        ) == display_width(b.drop_last()[i]) by {
            assert(a.drop_last()[i] == a[i]);
        }
        lemma_widest_same(a.drop_last(), b.drop_last());
    }
}

/// Placeholders take no room: where stripping an art twice gives what
/// stripping it once gives, the stripped art has the width and the height
/// of the art itself, so that its width is not greater.
pub proof fn lemma_stripped_size(art: Seq<u8>)
    requires
        strip_tokens(strip_tokens(art)) == strip_tokens(art),
    ensures
        art_width(strip_tokens(art)) == art_width(art),
        art_height(strip_tokens(art)) == art_height(art),
        art_width(strip_tokens(art)) <= art_width(art),
{
    let once = strip_tokens(art);
    lemma_empty_table_single();
    lemma_lines_of_replace(art, empty_table());
    lemma_lines_of_replace(once, empty_table());
    assert forall|i: int| 0 <= i < lines_of(once).len() implies display_width(
        #[trigger] lines_of(once)[i],
    ) == display_width(lines_of(art)[i]) by {
        assert(lines_of(once)[i] == strip_tokens(lines_of(art)[i]));
        assert(lines_of(strip_tokens(once))[i] == strip_tokens(lines_of(once)[i]));
    }
    lemma_widest_same(lines_of(once), lines_of(art));
}

/// Spaces hold no placeholder.
proof fn lemma_replace_spaces(n: nat, table: Seq<Seq<u8>>)
    ensures
        replace_tokens(spaces(n), table) == spaces(n),
    decreases n,
{
    if n > 0 {
        let s = spaces(n);
        assert(s[0] == SPACE);
        assert(token_at(s, 0) is None);
        assert(s.skip(1) =~= spaces((n - 1) as nat));
        lemma_replace_spaces((n - 1) as nat, table);
        assert(seq![SPACE] + spaces((n - 1) as nat) =~= s);
    }
}

/// Spaces behind a line change nothing in how its placeholders are
/// replaced: they stay behind the result.
pub proof fn lemma_replace_padded(line: Seq<u8>, n: nat, table: Seq<Seq<u8>>)
    ensures
        replace_tokens(line + spaces(n), table) == replace_tokens(line, table) + spaces(n),
    decreases line.len(),
{
    let padded = line + spaces(n);
    if line.len() == 0 {
        assert(padded =~= spaces(n));
        lemma_replace_spaces(n, table);
        assert(replace_tokens(line, table) + spaces(n) =~= spaces(n));
    } else {
        assert(token_at(padded, 0) == token_at(line, 0)) by {
            if line.len() >= 5 {
                assert(padded[0] == line[0] && padded[1] == line[1] && padded[2] == line[2]
                    && padded[3] == line[3] && padded[4] == line[4]);
            } else if padded.len() >= 5 {
                assert(padded[line.len() as int] == SPACE);
            }
        }
        assert(padded[0] == line[0]);
        match token_at(line, 0) {
            Some(slot) => {
                assert(padded.skip(5) =~= line.skip(5) + spaces(n));
                lemma_replace_padded(line.skip(5), n, table);
                assert(replace_tokens(padded, table) =~= replace_tokens(line, table) + spaces(n));
            },
            None => {
                assert(padded.skip(1) =~= line.skip(1) + spaces(n));
                lemma_replace_padded(line.skip(1), n, table);
                assert(replace_tokens(padded, table) =~= replace_tokens(line, table) + spaces(n));
            },
        }
    }
}

/// True when every space of the padding behind line `i` adds one column.
///
/// A space takes a column of its own behind nearly every text; it does
/// not behind a character that joins what follows it into its cluster.
pub open spec fn padding_counts(lines: Seq<Seq<u8>>, i: int) -> bool {
    let pad = (widest(lines) - display_width(lines[i])) as nat;
    columns(strip_tokens(lines[i]) + spaces(pad)) == columns(strip_tokens(lines[i])) + pad
}

/// After normalising, every line is as wide as the art was, wherever each
/// space of the padding adds one column.
pub proof fn lemma_normalized_widths(art: Seq<u8>)
    requires
        forall|i: int| 0 <= i < lines_of(art).len() ==> padding_counts(lines_of(art), i),
    ensures
        lines_of(normalized(art)).len() == lines_of(art).len(),
        forall|i: int|
            0 <= i < lines_of(art).len() ==> display_width(#[trigger] lines_of(normalized(art))[i])
                == art_width(art),
        art_width(normalized(art)) == art_width(art),
{
    let lines = lines_of(art);
    let padded = Seq::new(lines.len(), |i: int| padded_line(lines, i));
    lemma_lines_single(art);
    assert forall|i: int| 0 <= i < padded.len() implies single_line(#[trigger] padded[i]) by {
        assert(single_line(lines[i]));
    }
    lemma_lines_of_join(padded);
    assert forall|i: int| 0 <= i < lines.len() implies display_width(#[trigger] padded[i])
        == widest(lines) by {
        let pad = (widest(lines) - display_width(lines[i])) as nat;
        lemma_widest_bounds(lines, i);
        lemma_replace_padded(lines[i], pad, empty_table());
        assert(padding_counts(lines, i));
    }
    lemma_widest_all(padded, widest(lines));
}

/// Lines that all have one width have it as their greatest width.
proof fn lemma_widest_all(lines: Seq<Seq<u8>>, width: nat)
    requires
        lines.len() >= 1,
        forall|i: int| 0 <= i < lines.len() ==> display_width(#[trigger] lines[i]) == width,
    ensures
        widest(lines) == width,
    decreases lines.len(),
{
    assert(display_width(lines.last()) == width) by {
        assert(lines.last() == lines[lines.len() - 1]);
    }
    if lines.len() > 1 {
        assert forall|i: int| 0 <= i < lines.drop_last().len() implies display_width(
            #[trigger] lines.drop_last()[i],
        ) == width by {
            assert(lines.drop_last()[i] == lines[i]);
        }
        lemma_widest_all(lines.drop_last(), width);
    } else {
        assert(widest(lines.drop_last()) == 0);
    }
}

/// Behind a first line that leads with a placeholder a slot is active on
/// every later line.
proof fn lemma_carry_stays(lines: Seq<Seq<u8>>, i: int)
    requires
        1 <= i <= lines.len(),
        leads_with_token(lines[0]),
    ensures
        carry_before(lines, i) is Some,
    decreases i,
{
    if i > 1 {
        lemma_carry_stays(lines, i - 1);
    }
}

/// The slot that is active before a line exists, where filling succeeds.
proof fn lemma_carry_valid(lines: Seq<Seq<u8>>, i: int)
    requires
        0 <= i <= lines.len(),
        forall|k: int| 0 <= k < lines.len() ==> (#[trigger] lines[k]).len() <= usize::MAX,
    ensures
        carry_before(lines, i) matches Some(slot) ==> valid_slot(slot),
    decreases i,
{
    if i > 0 {
        lemma_carry_valid(lines, i - 1);
        let found = occurrences(lines[i - 1]);
        lemma_occurrences_from(lines[i - 1], 0);
        if found.len() > 0 {
            assert(valid_slot(found[found.len() - 1].slot));
        }
    }
}

/// Filling fails exactly where the first line does not lead with a
/// placeholder, and the line that it then names is the first: behind a
/// first placeholder there is always a slot to carry, and before it there
/// is none.
pub proof fn lemma_fillable_first_line(lines: Seq<Seq<u8>>)
    requires
        lines.len() >= 1,
    ensures
        fillable(lines) <==> leads_with_token(lines[0]),
        !fillable(lines) ==> stuck_line(lines) == 0,
{
    if leads_with_token(lines[0]) {
        assert forall|i: int| 0 <= i < lines.len() implies leads_with_token(#[trigger] lines[i])
            || carry_before(lines, i) is Some by {
            if i > 0 {
                lemma_carry_stays(lines, i);
            }
        }
    } else {
        assert(carry_before(lines, 0) is None);
    }
}

/// After filling, every line leads with a placeholder: its first
/// placeholder has nothing but spaces before it. The number of lines is
/// that of the art.
pub proof fn lemma_filled_lines_lead(art: Seq<u8>)
    requires
        art.len() <= usize::MAX,
        fillable(lines_of(art)),
    ensures
        lines_of(filled(art)).len() == lines_of(art).len(),
        forall|i: int|
            0 <= i < lines_of(art).len() ==> leads_with_token(#[trigger] lines_of(filled(art))[i]),
{
    let lines = lines_of(art);
    let out = Seq::new(lines.len(), |i: int| filled_line(lines, i));
    lemma_lines_single(art);
    lemma_lines_bounded(art);
    assert forall|i: int| 0 <= i < out.len() implies single_line(#[trigger] out[i])
        && leads_with_token(out[i]) by {
        assert(single_line(lines[i]));
        if !leads_with_token(lines[i]) {
            lemma_carry_valid(lines, i);
            let slot = carry_before(lines, i)->0;
            let line = token(slot) + lines[i];
            assert(out[i] == line);
            assert(token_at(line, 0) == Some(slot));
            assert(occurrences(line)[0].start == 0);
        }
    }
    lemma_lines_of_join(out);
}

/// No line is longer than the text.
proof fn lemma_lines_bounded(s: Seq<u8>)
    ensures
        forall|i: int| 0 <= i < lines_of(s).len() ==> (#[trigger] lines_of(s)[i]).len() <= s.len(),
    decreases s.len(),
{
    lemma_first_newline_bounds(s);
    let i = first_newline(s);
    if 0 <= i < s.len() {
        lemma_lines_bounded(s.skip(i + 1));
        let rest = lines_of(s.skip(i + 1));
        assert forall|j: int| 0 <= j < lines_of(s).len() implies (#[trigger] lines_of(s)[j]).len()
            <= s.len() by {
            if j > 0 {
                assert(lines_of(s)[j] == rest[j - 1]);
            }
        }
    }
}

/// With a pair and a neutral colour that holds no line break, putting the
/// neutral colour in row by row is putting it into the whole art before
/// the rows are cut: row `i` is line `i` of the art with its foreground
/// placeholders replaced, with the background placeholders replaced by
/// the row's colour and the reset behind it.
pub proof fn lemma_horizontal_outline_first(
    art: Seq<u8>,
    fore: u8,
    back: u8,
    neutral: Seq<u8>,
    reset: Seq<u8>,
    colors: Seq<Seq<u8>>,
)
    requires
        single_line(neutral),
    ensures
        ({
            let outlined = lines_of(replace_tokens(filled(art), slot_table(fore, neutral)));
            horizontal(art, Some((fore, back)), neutral, reset, colors) == strip_tokens(
                text_of(
                    Seq::new(
                        outlined.len(),
                        |i: int| replace_tokens(outlined[i], slot_table(back, colors[i])) + reset,
                    ),
                ),
            )
        }),
{
    let table = slot_table(fore, neutral);
    assert(single_line_table(table)) by {
        assert forall|k: int| 0 <= k < 6 implies single_line(#[trigger] table[k]) by {
            assert(single_line(token((k + 1) as u8)));
        }
    }
    lemma_lines_of_replace(filled(art), table);
    let lines = lines_of(filled(art));
    let outlined = lines_of(replace_tokens(filled(art), table));
    let whole = Seq::new(
        outlined.len(),
        |i: int| replace_tokens(outlined[i], slot_table(back, colors[i])) + reset,
    );
    assert(horizontal_rows(lines, colors, Some((fore, back)), neutral, reset) =~= whole);
}

/// True when the answer is what a profile without colours gives: an empty
/// palette for the unique colours, and a failure for every spread and
/// every gradient.
pub open spec fn from_empty_profile(request: RequestModel, answer: AnswerModel) -> bool {
    match request {
        RequestModel::Unique => answer == (AnswerModel::Colors { colors: Seq::empty() }),
        _ => answer is Failed,
    }
}

/// An empty profile cannot be spread: whatever the strategy, where the
/// plan stands and the answers are those of a profile without colours,
/// the result is `ProfileSpreadFailure`.
pub proof fn lemma_empty_profile(
    alignment: AlignmentModel,
    art: Seq<u8>,
    escapes: EscapesModel,
    theme: TerminalTheme,
    answers: Seq<AnswerModel>,
)
    requires
        plan(alignment, art) matches Ok(requests) && answers.len() == requests.len() && forall|
            i: int,
        |
            0 <= i < requests.len() ==> from_empty_profile(requests[i], #[trigger] answers[i]),
    ensures
        recolored(alignment, art, escapes, theme, answers) == Err::<Seq<u8>, RecolorError>(
            RecolorError::ProfileSpreadFailure,
        ),
{
    let requests = plan(alignment, art)->Ok_0;
    lemma_plan_asks(alignment, art);
    assert(from_empty_profile(requests[0], answers[0]));
    if !(requests[0] is Unique) {
        assert(!answer_fits(requests[0], answers[0]));
    }
}

/// Every plan asks for something.
pub proof fn lemma_plan_asks(alignment: AlignmentModel, art: Seq<u8>)
    ensures
        plan(alignment, art) matches Ok(requests) ==> requests.len() >= 1,
{
    lemma_lines_single(strip_tokens(art));
}

/// A profile that fails gives no art: where the plan stands and an answer
/// to one of its requests is a failure, or an answer is missing, the
/// result is `ProfileSpreadFailure`, whatever the other answers are.
pub proof fn lemma_failed_answer(
    alignment: AlignmentModel,
    art: Seq<u8>,
    escapes: EscapesModel,
    theme: TerminalTheme,
    answers: Seq<AnswerModel>,
    i: int,
)
    requires
        plan(alignment, art) matches Ok(requests) && 0 <= i < requests.len() && (i
            >= answers.len() || answers[i] is Failed),
    ensures
        recolored(alignment, art, escapes, theme, answers) == Err::<Seq<u8>, RecolorError>(
            RecolorError::ProfileSpreadFailure,
        ),
{
    let requests = plan(alignment, art)->Ok_0;
    if i < answers.len() {
        assert(!answer_fits(requests[i], answers[i]));
    }
}

} // verus!
