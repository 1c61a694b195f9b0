//! The two steps of recolouring: planning the requests to the gradient
//! profile, and assembling the coloured art from its answers.

use crate::alignment::{
    answer_fits, answer_models, answer_texts, answers_fit, custom, custom_table, entries_of,
    first_outside, gradient_spans, horizontal_base, horizontal_row, horizontal_rows,
    keyed_by_slots, line_requests, outside_from, outside_palette, plan, recolored,
    rendered_line, rendered_span, request_models, slice_request, slice_requests, span_end,
    span_text, spans_before, takes_gradient, valid_pair, vertical, within_palette,
    AlignmentModel, ColorAlignment, Escapes, ForeBack, ProfileAnswer, ProfileRequest,
    RequestModel, TerminalTheme,
};
use crate::canvas::{art_width, ascii_size, fill_starting, filled};
use crate::error::RecolorError;
use crate::placeholder::{
    lemma_occurrences_from, occurrences, replace_tokens, slot_table, strip_tokens, token_at,
    token_text, valid_slot, Occurrence, Scanner,
};
use crate::text::{
    byte_len, bytes_of, join_lines, lemma_ascii_boundary, lemma_bytes_of_valid, lines_of,
    push_text, slice, slices_bytes, split_lines, strings_bytes, text_of,
};
use vstd::prelude::*;
use vstd::string::*;
use vstd::utf8::*;

verus! {

/// The table that replaces the placeholders of `slot` by `with`.
fn table_for(slot: u8, with: &str) -> (r: Vec<String>)
    ensures
        r@.len() == 6,
        strings_bytes(r@) == slot_table(slot, with.spec_bytes()),
{
    let mut r: Vec<String> = Vec::new();
    let mut i: u8 = 1;
    while i <= 6
        invariant
            1 <= i <= 7,
            r@.len() == i - 1,
            forall|k: int|
                0 <= k < r@.len() ==> bytes_of(#[trigger] r@[k]@) == slot_table(
                    slot,
                    with.spec_bytes(),
                )[k],
        decreases 7 - i,
    {
        if i == slot {
            r.push(String::from_str(with));
        } else {
            r.push(String::from_str(token_text(i)));
        }
        i += 1;
    }
    proof {
        assert(strings_bytes(r@) =~= slot_table(slot, with.spec_bytes()));
    }
    r
}

/// True when the slot exists.
fn is_slot(slot: u8) -> (b: bool)
    ensures
        b == valid_slot(slot),
{
    1 <= slot && slot <= 6
}

/// True when the pair, if there is one, names two slots that exist.
fn is_valid_pair(fore_back: &Option<ForeBack>) -> (b: bool)
    ensures
        b == valid_pair(*fore_back),
{
    match fore_back {
        Some((fore, back)) => is_slot(*fore) && is_slot(*back),
        None => true,
    }
}

/// True when every entry is keyed by a slot that exists.
fn keys_are_slots(entries: &Vec<(u8, u8)>) -> (b: bool)
    ensures
        b == keyed_by_slots(entries@),
{
    let mut i: usize = 0;
    while i < entries.len()
        invariant
            i <= entries@.len(),
            forall|k: int| 0 <= k < i ==> valid_slot((#[trigger] entries@[k]).0),
        decreases entries.len() - i,
    {
        if !is_slot(entries[i].0) {
            proof {
                assert(!valid_slot(entries@[i as int].0));
            }
            return false;
        }
        i += 1;
    }
    true
}

/// True when the answer is of the kind that the request asks for.
fn fits(request: &ProfileRequest, answer: &ProfileAnswer) -> (b: bool)
    ensures
        b == answer_fits(request@, answer@),
{
    match request {
        ProfileRequest::Spread { length } => match answer {
            ProfileAnswer::Colors { colors } => colors.len() == *length,
            _ => false,
        },
        ProfileRequest::Unique => match answer {
            ProfileAnswer::Colors { .. } => true,
            _ => false,
        },
        ProfileRequest::Gradient { .. } => match answer {
            ProfileAnswer::Text { .. } => true,
            _ => false,
        },
        ProfileRequest::GradientSlice { .. } => match answer {
            ProfileAnswer::Text { .. } => true,
            _ => false,
        },
    }
}

/// True when there is one fitting answer for each request, in order.
fn all_fit(requests: &Vec<ProfileRequest>, answers: &Vec<ProfileAnswer>) -> (b: bool)
    ensures
        b == answers_fit(request_models(requests@), answer_models(answers@)),
{
    if requests.len() != answers.len() {
        return false;
    }
    let mut i: usize = 0;
    while i < requests.len()
        invariant
            i <= requests@.len(),
            requests@.len() == answers@.len(),
            forall|k: int|
                0 <= k < i ==> answer_fits(
                    request_models(requests@)[k],
                    #[trigger] answer_models(answers@)[k],
                ),
        decreases requests.len() - i,
    {
        if !fits(&requests[i], &answers[i]) {
            proof {
                assert(!answer_fits(
                    request_models(requests@)[i as int],
                    answer_models(answers@)[i as int],
                ));
            }
            return false;
        }
        i += 1;
    }
    true
}

/// Every occurrence ends behind as many whole tokens as there are
/// occurrences up to it.
pub proof fn lemma_occurrence_offset(s: Seq<u8>, j: int)
    requires
        s.len() <= usize::MAX,
        0 <= j < occurrences(s).len(),
    ensures
        5 * (j + 1) <= occurrences(s)[j].end,
    decreases j,
{
    lemma_occurrences_from(s, 0);
    if j > 0 {
        lemma_occurrence_offset(s, j - 1);
        assert(occurrences(s)[j - 1].end <= occurrences(s)[j].start);
    }
}

/// The text behind occurrence `j` of the line, and where it ends.
fn span_of<'a>(line: &'a str, found: &Vec<Occurrence>, j: usize) -> (r: (&'a str, usize))
    requires
        found@ == occurrences(line.spec_bytes()),
        j < found@.len(),
    ensures
        r.0.spec_bytes() == span_text(line.spec_bytes(), found@, j as int),
        r.1 == span_end(line.spec_bytes(), found@, j as int),
        5 * (j + 1) <= found@[j as int].end <= r.1,
{
    let len = byte_len(line);
    let ghost bytes = line.spec_bytes();
    proof {
        lemma_bytes_of_valid(line@);
        lemma_occurrences_from(bytes, 0);
        lemma_occurrence_offset(bytes, j as int);
        is_char_boundary_start_end_of_seq(bytes);
    }
    let o = found[j];
    let end = if j + 1 < found.len() {
        found[j + 1].start
    } else {
        len
    };
    proof {
        assert(token_at(bytes, o.start as int) == Some(o.slot));
        lemma_ascii_boundary(bytes, o.end - 1);
        if j + 1 < found@.len() {
            let next = found@[j + 1];
            assert(found@[j as int].end <= next.start);
            assert(token_at(bytes, next.start as int) == Some(next.slot));
            lemma_ascii_boundary(bytes, next.start as int);
        }
    }
    (slice(line, o.end, end), end)
}

/// The requests for the gradient spans of one line, added to `requests`.
fn push_line_requests(
    scanner: &Scanner,
    line: &str,
    fore: u8,
    back: u8,
    width: usize,
    requests: &mut Vec<ProfileRequest>,
)
    ensures
        request_models(final(requests)@) == request_models(old(requests)@) + line_requests(
            line.spec_bytes(),
            occurrences(line.spec_bytes()),
            occurrences(line.spec_bytes()).len() as int,
            fore,
            back,
            width as nat,
        ),
{
    let found = scanner.find(line);
    let ghost bytes = line.spec_bytes();
    let ghost before = request_models(requests@);
    proof {
        assert(request_models(requests@) =~= before + line_requests(
            bytes,
            found@,
            0,
            fore,
            back,
            width as nat,
        ));
    }
    let mut j: usize = 0;
    while j < found.len()
        invariant
            j <= found@.len(),
            bytes == line.spec_bytes(),
            found@ == occurrences(bytes),
            request_models(requests@) == before + line_requests(
                bytes,
                found@,
                j as int,
                fore,
                back,
                width as nat,
            ),
        decreases found.len() - j,
    {
        let o = found[j];
        if o.slot != fore && o.slot == back {
            let (text, end) = span_of(line, &found, j);
            let offset = 5 * (j + 1);
            let ghost earlier = requests@;
            let request = ProfileRequest::GradientSlice {
                spread: width,
                from: o.end - offset,
                to: end - offset,
                text: String::from_str(text),
            };
            requests.push(request);
            proof {
                assert(request@ == slice_request(bytes, found@, j as int, width as nat));
                assert(request_models(requests@) =~= request_models(earlier).push(request@));
            }
        }
        j += 1;
    }
}

/// The requests for the gradient spans of all lines, behind the request
/// for the spread itself.
fn vertical_requests(scanner: &Scanner, base: &str, fore: u8, back: u8, width: usize) -> (r: Vec<
    ProfileRequest,
>)
    ensures
        request_models(r@) == seq![RequestModel::Spread { length: width as nat }] + slice_requests(
            lines_of(base.spec_bytes()),
            lines_of(base.spec_bytes()).len() as int,
            fore,
            back,
            width as nat,
        ),
{
    let lines = split_lines(base);
    let ghost all = lines_of(base.spec_bytes());
    let ghost head = seq![RequestModel::Spread { length: width as nat }];
    let mut requests: Vec<ProfileRequest> = Vec::new();
    requests.push(ProfileRequest::Spread { length: width });
    proof {
        assert(request_models(requests@) =~= head + slice_requests(
            all,
            0,
            fore,
            back,
            width as nat,
        ));
    }
    let mut i: usize = 0;
    while i < lines.len()
        invariant
            i <= lines@.len(),
            all == slices_bytes(lines@),
            head == seq![RequestModel::Spread { length: width as nat }],
            request_models(requests@) == head + slice_requests(
                all,
                i as int,
                fore,
                back,
                width as nat,
            ),
        decreases lines.len() - i,
    {
        proof {
            assert(all[i as int] == lines@[i as int].spec_bytes());
        }
        let ghost earlier = request_models(requests@);
        push_line_requests(scanner, lines[i], fore, back, width, &mut requests);
        proof {
            let more = line_requests(
                all[i as int],
                occurrences(all[i as int]),
                occurrences(all[i as int]).len() as int,
                fore,
                back,
                width as nat,
            );
            assert(request_models(requests@) =~= head + (slice_requests(
                all,
                i as int,
                fore,
                back,
                width as nat,
            ) + more));
        }
        i += 1;
    }
    requests
}

/// The count of gradient spans grows with the number of spans looked at.
pub proof fn lemma_gradient_spans_monotone(
    found: Seq<Occurrence>,
    a: int,
    b: int,
    fore: u8,
    back: u8,
)
    requires
        a <= b,
    ensures
        gradient_spans(found, a, fore, back) <= gradient_spans(found, b, fore, back),
    decreases b - a,
{
    if a < b {
        lemma_gradient_spans_monotone(found, a, b - 1, fore, back);
    }
}

/// The count of gradient spans grows with the number of lines looked at.
pub proof fn lemma_spans_before_monotone(lines: Seq<Seq<u8>>, a: int, b: int, fore: u8, back: u8)
    requires
        a <= b,
    ensures
        spans_before(lines, a, fore, back) <= spans_before(lines, b, fore, back),
    decreases b - a,
{
    if a < b {
        lemma_spans_before_monotone(lines, a, b - 1, fore, back);
    }
}

/// There is one request for each gradient span of a line.
pub proof fn lemma_line_requests_len(
    line: Seq<u8>,
    found: Seq<Occurrence>,
    upto: int,
    fore: u8,
    back: u8,
    width: nat,
)
    ensures
        line_requests(line, found, upto, fore, back, width).len() == gradient_spans(
            found,
            upto,
            fore,
            back,
        ),
        forall|k: int|
            0 <= k < line_requests(line, found, upto, fore, back, width).len()
                ==> #[trigger] line_requests(line, found, upto, fore, back, width)[k]
                is GradientSlice,
    decreases upto,
{
    if upto > 0 {
        lemma_line_requests_len(line, found, upto - 1, fore, back, width);
    }
}

/// There is one request for each gradient span of the art, and each asks
/// for a slice of the gradient.
pub proof fn lemma_slice_requests_len(
    lines: Seq<Seq<u8>>,
    upto: int,
    fore: u8,
    back: u8,
    width: nat,
)
    ensures
        slice_requests(lines, upto, fore, back, width).len() == spans_before(
            lines,
            upto,
            fore,
            back,
        ),
        forall|k: int|
            0 <= k < slice_requests(lines, upto, fore, back, width).len()
                ==> #[trigger] slice_requests(lines, upto, fore, back, width)[k] is GradientSlice,
    decreases upto,
{
    if upto > 0 {
        lemma_slice_requests_len(lines, upto - 1, fore, back, width);
        let line = lines[upto - 1];
        let found = occurrences(line);
        lemma_line_requests_len(line, found, found.len() as int, fore, back, width);
    }
}

/// The rows of the horizontally coloured art, and the last sweep.
fn horizontal_assemble(
    scanner: &Scanner,
    base: &str,
    fore_back: &Option<ForeBack>,
    neutral: &str,
    reset: &str,
    colors: &Vec<String>,
) -> (r: String)
    requires
        colors@.len() == lines_of(base.spec_bytes()).len(),
    ensures
        bytes_of(r@) == ({
            let rows = text_of(
                horizontal_rows(
                    lines_of(base.spec_bytes()),
                    strings_bytes(colors@),
                    *fore_back,
                    neutral.spec_bytes(),
                    reset.spec_bytes(),
                ),
            );
            match *fore_back {
                Some(_) => strip_tokens(rows),
                None => rows,
            }
        }),
{
    let lines = split_lines(base);
    let ghost all = lines_of(base.spec_bytes());
    let ghost palette = strings_bytes(colors@);
    let mut rows: Vec<String> = Vec::new();
    let mut i: usize = 0;
    while i < lines.len()
        invariant
            i <= lines@.len(),
            all == slices_bytes(lines@),
            palette == strings_bytes(colors@),
            colors@.len() == lines@.len(),
            rows@.len() == i,
            forall|k: int|
                0 <= k < i ==> bytes_of(#[trigger] rows@[k]@) == horizontal_row(
                    all[k],
                    palette[k],
                    *fore_back,
                    neutral.spec_bytes(),
                    reset.spec_bytes(),
                ),
        decreases lines.len() - i,
    {
        proof {
            assert(all[i as int] == lines@[i as int].spec_bytes());
            assert(palette[i as int] == bytes_of(colors@[i as int]@));
        }
        let color = colors[i].as_str();
        let row = match fore_back {
            Some((fore, back)) => {
                let outline = scanner.replace_all(lines[i], &table_for(*fore, neutral));
                let mut row = scanner.replace_all(outline.as_str(), &table_for(*back, color));
                push_text(&mut row, reset);
                row
            },
            None => {
                let mut row = String::from_str(color);
                push_text(&mut row, lines[i]);
                push_text(&mut row, reset);
                row
            },
        };
        rows.push(row);
        i += 1;
    }
    proof {
        assert(strings_bytes(rows@) =~= horizontal_rows(
            all,
            palette,
            *fore_back,
            neutral.spec_bytes(),
            reset.spec_bytes(),
        ));
    }
    let joined = join_lines(&rows);
    match fore_back {
        Some(_) => scanner.strip(joined.as_str()),
        None => joined,
    }
}

/// The texts of the answers behind the first `from`.
fn gather_texts(answers: &Vec<ProfileAnswer>, from: usize) -> (r: Vec<String>)
    requires
        from <= answers@.len(),
    ensures
        strings_bytes(r@) == answer_texts(answer_models(answers@), from as int),
{
    let mut texts: Vec<String> = Vec::new();
    let mut i: usize = from;
    while i < answers.len()
        invariant
            from <= i <= answers@.len(),
            texts@.len() == i - from,
            forall|k: int|
                0 <= k < texts@.len() ==> bytes_of(#[trigger] texts@[k]@) == answer_texts(
                    answer_models(answers@),
                    from as int,
                )[k],
        decreases answers.len() - i,
    {
        let text = match &answers[i] {
            ProfileAnswer::Text { text } => text.clone(),
            _ => String::new(),
        };
        proof {
            assert(answer_models(answers@)[i as int] == answers@[i as int]@);
        }
        texts.push(text);
        i += 1;
    }
    proof {
        assert(strings_bytes(texts@) =~= answer_texts(answer_models(answers@), from as int));
    }
    texts
}

/// One line rendered span by span. `texts[first]` is the coloured text of
/// the line's first gradient span; the index behind its last is returned.
fn render_line(
    scanner: &Scanner,
    line: &str,
    fore: u8,
    back: u8,
    neutral: &str,
    reset: &str,
    texts: &Vec<String>,
    first: usize,
) -> (r: (String, usize))
    requires
        first + gradient_spans(
            occurrences(line.spec_bytes()),
            occurrences(line.spec_bytes()).len() as int,
            fore,
            back,
        ) <= texts@.len(),
    ensures
        r.1 == first + gradient_spans(
            occurrences(line.spec_bytes()),
            occurrences(line.spec_bytes()).len() as int,
            fore,
            back,
        ),
        bytes_of(r.0@) == rendered_line(
            line.spec_bytes(),
            occurrences(line.spec_bytes()),
            occurrences(line.spec_bytes()).len() as int,
            fore,
            back,
            neutral.spec_bytes(),
            reset.spec_bytes(),
            strings_bytes(texts@).skip(first as int),
        ),
{
    let found = scanner.find(line);
    let ghost bytes = line.spec_bytes();
    let ghost given = strings_bytes(texts@).skip(first as int);
    let total = texts.len();
    let mut text = String::new();
    let mut next: usize = first;
    let mut j: usize = 0;
    proof {
        assert(bytes_of(text@) =~= Seq::<u8>::empty());
    }
    while j < found.len()
        invariant
            j <= found@.len(),
            total == texts@.len(),
            bytes == line.spec_bytes(),
            found@ == occurrences(bytes),
            given == strings_bytes(texts@).skip(first as int),
            next == first + gradient_spans(found@, j as int, fore, back),
            first + gradient_spans(found@, found@.len() as int, fore, back) <= texts@.len(),
            bytes_of(text@) == rendered_line(
                bytes,
                found@,
                j as int,
                fore,
                back,
                neutral.spec_bytes(),
                reset.spec_bytes(),
                given,
            ),
        decreases found.len() - j,
    {
        let o = found[j];
        let ghost before = bytes_of(text@);
        let ghost piece = rendered_span(
            bytes,
            found@,
            j as int,
            fore,
            back,
            neutral.spec_bytes(),
            reset.spec_bytes(),
            given,
        );
        if o.slot == fore {
            let (span, _) = span_of(line, &found, j);
            push_text(&mut text, neutral);
            push_text(&mut text, span);
            push_text(&mut text, reset);
        } else if o.slot == back {
            proof {
                lemma_gradient_spans_monotone(found@, j + 1, found@.len() as int, fore, back);
                assert(takes_gradient(found@[j as int], fore, back));
                assert(gradient_spans(found@, j + 1, fore, back) == gradient_spans(
                    found@,
                    j as int,
                    fore,
                    back,
                ) + 1);
                assert(next < total);
                assert(given[next - first] == bytes_of(texts@[next as int]@));
            }
            push_text(&mut text, texts[next].as_str());
            next = next + 1;
        } else {
            let (span, _) = span_of(line, &found, j);
            push_text(&mut text, span);
        }
        proof {
            assert(bytes_of(text@) =~= before + piece);
        }
        j += 1;
    }
    (text, next)
}

/// The vertically coloured art with a pair.
fn vertical_assemble(
    scanner: &Scanner,
    base: &str,
    fore: u8,
    back: u8,
    neutral: &str,
    reset: &str,
    texts: &Vec<String>,
) -> (r: String)
    requires
        texts@.len() == spans_before(
            lines_of(base.spec_bytes()),
            lines_of(base.spec_bytes()).len() as int,
            fore,
            back,
        ),
    ensures
        bytes_of(r@) == vertical(
            lines_of(base.spec_bytes()),
            fore,
            back,
            neutral.spec_bytes(),
            reset.spec_bytes(),
            strings_bytes(texts@),
        ),
{
    let lines = split_lines(base);
    let ghost all = lines_of(base.spec_bytes());
    let ghost given = strings_bytes(texts@);
    let mut rows: Vec<String> = Vec::new();
    let mut next: usize = 0;
    let mut i: usize = 0;
    while i < lines.len()
        invariant
            i <= lines@.len(),
            all == slices_bytes(lines@),
            given == strings_bytes(texts@),
            texts@.len() == spans_before(all, all.len() as int, fore, back),
            next == spans_before(all, i as int, fore, back),
            rows@.len() == i,
            forall|k: int|
                0 <= k < i ==> bytes_of(#[trigger] rows@[k]@) == rendered_line(
                    all[k],
                    occurrences(all[k]),
                    occurrences(all[k]).len() as int,
                    fore,
                    back,
                    neutral.spec_bytes(),
                    reset.spec_bytes(),
                    given.skip(spans_before(all, k, fore, back) as int),
                ),
        decreases lines.len() - i,
    {
        proof {
            assert(all[i as int] == lines@[i as int].spec_bytes());
            lemma_spans_before_monotone(all, i + 1, all.len() as int, fore, back);
        }
        let (row, after) = render_line(scanner, lines[i], fore, back, neutral, reset, texts, next);
        rows.push(row);
        next = after;
        i += 1;
    }
    proof {
        assert(strings_bytes(rows@) =~= Seq::new(
            all.len(),
            |k: int|
                {
                    let found = occurrences(all[k]);
                    rendered_line(
                        all[k],
                        found,
                        found.len() as int,
                        fore,
                        back,
                        neutral.spec_bytes(),
                        reset.spec_bytes(),
                        given.skip(spans_before(all, k, fore, back) as int),
                    )
                },
        ));
    }
    join_lines(&rows)
}

/// The replacement of each slot under a custom mapping, or the failure
/// over the first entry that names a colour that the palette lacks.
fn custom_replacements(entries: &Vec<(u8, u8)>, palette: &Vec<String>) -> (r: Result<
    Vec<String>,
    RecolorError,
>)
    requires
        keyed_by_slots(entries@),
    ensures
        match r {
            Ok(table) => {
                &&& within_palette(entries@, strings_bytes(palette@))
                &&& table@.len() == 6
                &&& strings_bytes(table@) == custom_table(entries@, strings_bytes(palette@))
            },
            Err(e) => !within_palette(entries@, strings_bytes(palette@)) && e == outside_palette(
                entries@,
                palette@.len(),
            ),
        },
{
    let ghost colors = strings_bytes(palette@);
    let mut table: Vec<String> = Vec::new();
    let mut slot: usize = 0;
    while slot < 6
        invariant
            slot <= 6,
            table@.len() == slot,
            forall|k: int| 0 <= k < slot ==> bytes_of(#[trigger] table@[k]@) == Seq::<u8>::empty(),
        decreases 6 - slot,
    {
        table.push(String::new());
        slot += 1;
    }
    let mut i: usize = 0;
    while i < entries.len()
        invariant
            i <= entries@.len(),
            keyed_by_slots(entries@),
            colors == strings_bytes(palette@),
            table@.len() == 6,
            forall|k: int| 0 <= k < i ==> (#[trigger] entries@[k]).1 < palette@.len(),
            first_outside(entries@, palette@.len()) == outside_from(
                entries@,
                palette@.len(),
                i as int,
            ),
            forall|k: int|
                0 <= k < 6 ==> bytes_of(#[trigger] table@[k]@) == custom_table(
                    entries@.take(i as int),
                    colors,
                )[k],
        decreases entries.len() - i,
    {
        let (slot, index) = entries[i];
        if index as usize >= palette.len() {
            proof {
                assert(!(entries@[i as int].1 < colors.len()));
            }
            return Err(RecolorError::InvalidColorIndex { slot, index });
        }
        proof {
            assert(valid_slot(entries@[i as int].0));
            let now = entries@.take(i + 1);
            assert(now.last() == entries@[i as int]);
            assert(now.drop_last() =~= entries@.take(i as int));
            assert(colors[index as int] == bytes_of(palette@[index as int]@));
        }
        table.set((slot - 1) as usize, palette[index as usize].clone());
        i += 1;
    }
    proof {
        assert(entries@.take(i as int) =~= entries@);
        assert(strings_bytes(table@) =~= custom_table(entries@, colors));
    }
    Ok(table)
}

/// The art coloured by the replacements of a custom mapping.
fn custom_assemble(scanner: &Scanner, base: &str, table: &Vec<String>, reset: &str) -> (r: String)
    requires
        table@.len() == 6,
    ensures
        bytes_of(r@) == ({
            let lines = lines_of(replace_tokens(base.spec_bytes(), strings_bytes(table@)));
            text_of(Seq::new(lines.len(), |i: int| lines[i] + reset.spec_bytes()))
        }),
{
    let replaced = scanner.replace_all(base, table);
    let lines = split_lines(replaced.as_str());
    let ghost all = lines_of(bytes_of(replaced@));
    let mut rows: Vec<String> = Vec::new();
    let mut i: usize = 0;
    while i < lines.len()
        invariant
            i <= lines@.len(),
            all == slices_bytes(lines@),
            rows@.len() == i,
            forall|k: int|
                0 <= k < i ==> bytes_of(#[trigger] rows@[k]@) == all[k] + reset.spec_bytes(),
        decreases lines.len() - i,
    {
        proof {
            assert(all[i as int] == lines@[i as int].spec_bytes());
        }
        let mut row = String::from_str(lines[i]);
        push_text(&mut row, reset);
        rows.push(row);
        i += 1;
    }
    proof {
        assert(strings_bytes(rows@) =~= Seq::new(
            all.len(),
            |k: int| all[k] + reset.spec_bytes(),
        ));
    }
    join_lines(&rows)
}

/// What the strategy cuts its lines from.
pub open spec fn base_text(alignment: AlignmentModel, art: Seq<u8>) -> Seq<u8> {
    match alignment {
        AlignmentModel::Horizontal { fore_back } => horizontal_base(art, fore_back),
        AlignmentModel::Vertical { fore_back: None } => strip_tokens(art),
        AlignmentModel::Vertical { fore_back: Some(_) } => filled(art),
        AlignmentModel::Custom { .. } => filled(art),
    }
}

impl ColorAlignment {
    /// True when every slot that the alignment names is one of the six.
    pub fn is_valid(&self) -> (b: bool)
        ensures
            b == self@.valid(),
    {
        match self {
            ColorAlignment::Horizontal { fore_back } => is_valid_pair(fore_back),
            ColorAlignment::Vertical { fore_back } => is_valid_pair(fore_back),
            ColorAlignment::Custom { colors } => {
                let entries = entries_of(colors);
                keys_are_slots(&entries)
            },
        }
    }

    /// The text that the strategy works on, and the requests to the
    /// profile.
    fn prepare(&self, scanner: &Scanner, asc: &str) -> (r: Result<
        (String, Vec<ProfileRequest>),
        RecolorError,
    >)
        ensures
            match r {
                Ok((base, requests)) => {
                    &&& plan(self@, asc.spec_bytes()) == Ok::<Seq<RequestModel>, RecolorError>(
                        request_models(requests@),
                    )
                    &&& bytes_of(base@) == base_text(self@, asc.spec_bytes())
                },
                Err(e) => plan(self@, asc.spec_bytes()) == Err::<Seq<RequestModel>, RecolorError>(
                    e,
                ),
            },
    {
        if !self.is_valid() {
            return Err(RecolorError::InvalidPlaceholder);
        }
        match self {
            ColorAlignment::Horizontal { fore_back } => {
                let base = match fore_back {
                    Some(_) => match fill_starting(scanner, asc) {
                        Ok(text) => text,
                        Err(e) => {
                            return Err(e);
                        },
                    },
                    None => scanner.strip(asc),
                };
                let height = match ascii_size(scanner, base.as_str()) {
                    Ok((_, height)) => height,
                    Err(e) => {
                        return Err(e);
                    },
                };
                let mut requests: Vec<ProfileRequest> = Vec::new();
                requests.push(ProfileRequest::Spread { length: height as usize });
                proof {
                    assert(request_models(requests@) =~= seq![
                        RequestModel::Spread { length: height as nat },
                    ]);
                }
                Ok((base, requests))
            },
            ColorAlignment::Vertical { fore_back: None } => {
                let base = scanner.strip(asc);
                let lines = split_lines(base.as_str());
                let ghost all = lines_of(bytes_of(base@));
                let mut requests: Vec<ProfileRequest> = Vec::new();
                let mut i: usize = 0;
                while i < lines.len()
                    invariant
                        i <= lines@.len(),
                        all == slices_bytes(lines@),
                        requests@.len() == i,
                        forall|k: int|
                            0 <= k < i ==> (#[trigger] requests@[k])@ == (RequestModel::Gradient {
                                text: all[k],
                            }),
                    decreases lines.len() - i,
                {
                    proof {
                        assert(all[i as int] == lines@[i as int].spec_bytes());
                    }
                    requests.push(ProfileRequest::Gradient { text: String::from_str(lines[i]) });
                    i += 1;
                }
                proof {
                    assert(request_models(requests@) =~= Seq::new(
                        all.len(),
                        |k: int| RequestModel::Gradient { text: all[k] },
                    ));
                }
                Ok((base, requests))
            },
            ColorAlignment::Vertical { fore_back: Some((fore, back)) } => {
                let base = match fill_starting(scanner, asc) {
                    Ok(text) => text,
                    Err(e) => {
                        return Err(e);
                    },
                };
                let width = match ascii_size(scanner, base.as_str()) {
                    Ok((width, _)) => width,
                    Err(e) => {
                        return Err(e);
                    },
                };
                if width == 0 {
                    return Err(RecolorError::ProfileSpreadFailure);
                }
                let requests = vertical_requests(
                    scanner,
                    base.as_str(),
                    *fore,
                    *back,
                    width as usize,
                );
                Ok((base, requests))
            },
            ColorAlignment::Custom { .. } => {
                let base = match fill_starting(scanner, asc) {
                    Ok(text) => text,
                    Err(e) => {
                        return Err(e);
                    },
                };
                let mut requests: Vec<ProfileRequest> = Vec::new();
                requests.push(ProfileRequest::Unique);
                proof {
                    assert(request_models(requests@) =~= seq![RequestModel::Unique]);
                }
                Ok((base, requests))
            },
        }
    }

    /// What to ask the gradient profile for before the art can be
    /// recoloured, or why it cannot be.
    ///
    /// A slot outside `1..=6` in the alignment gives `InvalidPlaceholder`.
    /// With a pair or a custom mapping, a line that needs the slot of an
    /// earlier line and finds none gives `MissingColorState` with that
    /// line. Horizontal asks for a spread to the number of rows, vertical
    /// with a pair for one to the number of columns; the art is measured
    /// before any colour goes in, one wider or higher than 255 gives
    /// `DimensionOverflow`, and a spread to no column at all
    /// `ProfileSpreadFailure`.
    pub fn requests(&self, scanner: &Scanner, asc: &str) -> (r: Result<
        Vec<ProfileRequest>,
        RecolorError,
    >)
        ensures
            match r {
                Ok(requests) => plan(self@, asc.spec_bytes()) == Ok::<
                    Seq<RequestModel>,
                    RecolorError,
                >(request_models(requests@)),
                Err(e) => plan(self@, asc.spec_bytes()) == Err::<Seq<RequestModel>, RecolorError>(
                    e,
                ),
            },
    {
        match self.prepare(scanner, asc) {
            Ok((_, requests)) => Ok(requests),
            Err(e) => Err(e),
        }
    }

    /// Recolours the art from the profile's answers to
    /// [`requests`](Self::requests), one for each request and in their
    /// order.
    ///
    /// Fails as `requests` does; with `ProfileSpreadFailure` where an answer
    /// is missing, is a failure, or is not what was asked for, and where
    /// the palette for a custom mapping is empty; and with
    /// `InvalidColorIndex` where a custom mapping names a colour that the
    /// palette lacks, naming the first such entry. No partial art is
    /// returned.
    pub fn recolor_ascii(
        &self,
        scanner: &Scanner,
        asc: &str,
        escapes: &Escapes,
        theme: TerminalTheme,
        answers: &Vec<ProfileAnswer>,
    ) -> (r: Result<String, RecolorError>)
        ensures
            match r {
                Ok(text) => recolored(
                    self@,
                    asc.spec_bytes(),
                    escapes@,
                    theme,
                    answer_models(answers@),
                ) == Ok::<Seq<u8>, RecolorError>(bytes_of(text@)),
                Err(e) => recolored(
                    self@,
                    asc.spec_bytes(),
                    escapes@,
                    theme,
                    answer_models(answers@),
                ) == Err::<Seq<u8>, RecolorError>(e),
            },
    {
        let (base, requests) = match self.prepare(scanner, asc) {
            Ok(prepared) => prepared,
            Err(e) => {
                return Err(e);
            },
        };
        if !all_fit(&requests, answers) {
            return Err(RecolorError::ProfileSpreadFailure);
        }
        let ghost given = answer_models(answers@);
        let ghost asked = request_models(requests@);
        let neutral = escapes.neutral(theme);
        let reset = escapes.reset.as_str();
        match self {
            ColorAlignment::Horizontal { fore_back } => {
                proof {
                    assert(answer_fits(asked[0], given[0]));
                    assert(given[0] == answers@[0]@);
                }
                match &answers[0] {
                    ProfileAnswer::Colors { colors } => Ok(
                        horizontal_assemble(
                            scanner,
                            base.as_str(),
                            fore_back,
                            neutral,
                            reset,
                            colors,
                        ),
                    ),
                    _ => Err(RecolorError::ProfileSpreadFailure),
                }
            },
            ColorAlignment::Vertical { fore_back: None } => {
                let texts = gather_texts(answers, 0);
                Ok(join_lines(&texts))
            },
            ColorAlignment::Vertical { fore_back: Some((fore, back)) } => {
                proof {
                    let lines = lines_of(bytes_of(base@));
                    lemma_slice_requests_len(
                        lines,
                        lines.len() as int,
                        *fore,
                        *back,
                        art_width(bytes_of(base@)),
                    );
                }
                let texts = gather_texts(answers, 1);
                Ok(vertical_assemble(scanner, base.as_str(), *fore, *back, neutral, reset, &texts))
            },
            ColorAlignment::Custom { colors } => {
                proof {
                    assert(answer_fits(asked[0], given[0]));
                    assert(given[0] == answers@[0]@);
                }
                let entries = entries_of(colors);
                match &answers[0] {
                    ProfileAnswer::Colors { colors: palette } => {
                        if palette.len() == 0 {
                            return Err(RecolorError::ProfileSpreadFailure);
                        }
                        match custom_replacements(&entries, palette) {
                            Ok(table) => Ok(
                                custom_assemble(scanner, base.as_str(), &table, reset),
                            ),
                            Err(e) => Err(e),
                        }
                    },
                    _ => Err(RecolorError::ProfileSpreadFailure),
                }
            },
        }
    }
}

} // verus!
