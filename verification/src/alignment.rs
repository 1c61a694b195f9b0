//! The alignment strategies and their model.
//!
//! A strategy needs colours that only the gradient profile can give, and
//! which colours depends on the art. So recolouring goes in two steps:
//! [`ColorAlignment::requests`] says what to ask the profile for, and
//! [`ColorAlignment::recolor_ascii`] builds the coloured art from the
//! profile's answers.

use crate::canvas::{art_height, art_width, fillable, filled, stuck_line};
use crate::error::RecolorError;
use crate::placeholder::{
    occurrences, replace_tokens, slot_table, strip_tokens, valid_slot, Occurrence,
};
use crate::text::{bytes_of, lines_of, strings_bytes, text_of};
use indexmap::IndexMap;
use vstd::prelude::*;
use vstd::string::*;
use vstd::utf8::*;

verus! {

/// Whether the terminal draws on a light or a dark background.
#[derive(Clone, Copy, Debug, PartialEq, Eq, Structural)]
pub enum TerminalTheme {
    Light,
    Dark,
}

/// The escape sequences that do not depend on the art: the reset code and
/// the two neutral foreground colours.
#[derive(Clone, Debug, PartialEq, Eq)]
pub struct Escapes {
    /// Ends all colour styling.
    pub reset: String,
    /// The light neutral colour, which reads on a dark background.
    pub light: String,
    /// The dark neutral colour, which reads on a light background.
    pub dark: String,
}

/// The bytes of the escape sequences.
pub struct EscapesModel {
    pub reset: Seq<u8>,
    pub light: Seq<u8>,
    pub dark: Seq<u8>,
}

impl View for Escapes {
    type V = EscapesModel;

    open spec fn view(&self) -> EscapesModel {
        EscapesModel {
            reset: bytes_of(self.reset@),
            light: bytes_of(self.light@),
            dark: bytes_of(self.dark@),
        }
    }
}

impl EscapesModel {
    /// The neutral colour that reads under the theme: the light one on a
    /// dark background, the dark one on a light background.
    pub open spec fn neutral(self, theme: TerminalTheme) -> Seq<u8> {
        match theme {
            TerminalTheme::Dark => self.light,
            TerminalTheme::Light => self.dark,
        }
    }
}

impl Escapes {
    /// The neutral colour that reads under the theme.
    pub fn neutral(&self, theme: TerminalTheme) -> (r: &str)
        ensures
            r.spec_bytes() == self@.neutral(theme),
    {
        match theme {
            TerminalTheme::Dark => self.light.as_str(),
            TerminalTheme::Light => self.dark.as_str(),
        }
    }
}

/// One thing to ask the gradient profile for.
#[derive(Clone, Debug, PartialEq, Eq)]
pub enum ProfileRequest {
    /// The profile spread to `length` colours, each as a foreground escape.
    Spread { length: usize },
    /// The profile without duplicate colours, each as a foreground escape.
    Unique,
    /// `text` coloured from left to right by the whole profile.
    Gradient { text: String },
    /// `text` coloured from left to right by the colours `from..to` of the
    /// profile spread to `spread` colours.
    GradientSlice { spread: usize, from: usize, to: usize, text: String },
}

/// What the profile gave for one request.
#[derive(Clone, Debug, PartialEq, Eq)]
pub enum ProfileAnswer {
    /// Foreground escapes, one per colour.
    Colors { colors: Vec<String> },
    /// Coloured text.
    Text { text: String },
    /// The profile could not do what was asked.
    Failed,
}

/// A request over bytes.
pub enum RequestModel {
    Spread { length: nat },
    Unique,
    Gradient { text: Seq<u8> },
    GradientSlice { spread: nat, from: int, to: int, text: Seq<u8> },
}

/// An answer over bytes.
pub enum AnswerModel {
    Colors { colors: Seq<Seq<u8>> },
    Text { text: Seq<u8> },
    Failed,
}

impl View for ProfileRequest {
    type V = RequestModel;

    open spec fn view(&self) -> RequestModel {
        match *self {
            ProfileRequest::Spread { length } => RequestModel::Spread { length: length as nat },
            ProfileRequest::Unique => RequestModel::Unique,
            ProfileRequest::Gradient { text } => RequestModel::Gradient { text: bytes_of(text@) },
            ProfileRequest::GradientSlice { spread, from, to, text } => {
                RequestModel::GradientSlice {
                    spread: spread as nat,
                    from: from as int,
                    to: to as int,
                    text: bytes_of(text@),
                }
            },
        }
    }
}

impl View for ProfileAnswer {
    type V = AnswerModel;

    open spec fn view(&self) -> AnswerModel {
        match *self {
            ProfileAnswer::Colors { colors } => AnswerModel::Colors {
                colors: strings_bytes(colors@),
            },
            ProfileAnswer::Text { text } => AnswerModel::Text { text: bytes_of(text@) },
            ProfileAnswer::Failed => AnswerModel::Failed,
        }
    }
}

/// The models of a vector of requests.
pub open spec fn request_models(v: Seq<ProfileRequest>) -> Seq<RequestModel> {
    Seq::new(v.len(), |i: int| v[i]@)
}

/// The models of a vector of answers.
pub open spec fn answer_models(v: Seq<ProfileAnswer>) -> Seq<AnswerModel> {
    Seq::new(v.len(), |i: int| v[i]@)
}

/// True when the answer is of the kind that the request asks for: as many
/// colours as a spread asks for, colours for the unique palette, text for
/// a gradient.
pub open spec fn answer_fits(request: RequestModel, answer: AnswerModel) -> bool {
    match request {
        RequestModel::Spread { length } => answer matches AnswerModel::Colors { colors }
            && colors.len() == length,
        RequestModel::Unique => answer is Colors,
        RequestModel::Gradient { .. } => answer is Text,
        RequestModel::GradientSlice { .. } => answer is Text,
    }
}

/// True when there is one fitting answer for each request, in order.
pub open spec fn answers_fit(requests: Seq<RequestModel>, answers: Seq<AnswerModel>) -> bool {
    &&& answers.len() == requests.len()
    &&& forall|i: int| 0 <= i < requests.len() ==> answer_fits(requests[i], #[trigger] answers[i])
}

/// The slots that are treated apart: the foreground slot, which is drawn
/// in the neutral colour, and the background slot, which takes the
/// gradient.
pub type ForeBack = (u8, u8);

/// How the gradient is laid over the art.
#[derive(Clone, Debug, PartialEq, Eq)]
pub enum ColorAlignment {
    /// One colour per row.
    Horizontal { fore_back: Option<ForeBack> },
    /// One colour per column.
    Vertical { fore_back: Option<ForeBack> },
    /// A fixed palette index for each mapped slot.
    Custom { colors: IndexMap<u8, u8> },
}

/// `indexmap::IndexMap`, the map that keeps its entries in the order of
/// their insertion; nothing of its inside is known here.
#[verifier::external_type_specification]
#[verifier::external_body]
#[verifier::reject_recursive_types(K)]
#[verifier::reject_recursive_types(V)]
#[verifier::reject_recursive_types(S)]
pub struct ExIndexMap<K, V, S>(IndexMap<K, V, S>);

/// `Clone` of an `IndexMap`, which the derived `Clone` of
/// [`ColorAlignment`] calls; nothing is stated of the copy.
pub assume_specification<K, V, S>[ <IndexMap<K, V, S> as Clone>::clone ](
    map: &IndexMap<K, V, S>,
) -> IndexMap<K, V, S> where K: Clone, V: Clone, S: Clone
;

/// The entries of a mapping from slots to palette indices, in the order
/// in which the map hands them out.
pub uninterp spec fn mapping_entries(map: IndexMap<u8, u8>) -> Seq<(u8, u8)>;

/// `IndexMap::iter`, collected: the key-value pairs in the map's order.
#[verifier::external_body]
pub(crate) fn entries_of(map: &IndexMap<u8, u8>) -> (r: Vec<(u8, u8)>)
    ensures
        r@ == mapping_entries(*map),
{
    map.iter().map(|(slot, index)| (*slot, *index)).collect()
}

/// An alignment over plain values.
pub enum AlignmentModel {
    Horizontal { fore_back: Option<ForeBack> },
    Vertical { fore_back: Option<ForeBack> },
    Custom { entries: Seq<(u8, u8)> },
}

impl View for ColorAlignment {
    type V = AlignmentModel;

    open spec fn view(&self) -> AlignmentModel {
        match *self {
            ColorAlignment::Horizontal { fore_back } => AlignmentModel::Horizontal { fore_back },
            ColorAlignment::Vertical { fore_back } => AlignmentModel::Vertical { fore_back },
            ColorAlignment::Custom { colors } => AlignmentModel::Custom {
                entries: mapping_entries(colors),
            },
        }
    }
}

/// True when the pair, if there is one, names two slots that exist.
pub open spec fn valid_pair(fore_back: Option<ForeBack>) -> bool {
    fore_back matches Some((fore, back)) ==> valid_slot(fore) && valid_slot(back)
}

/// True when every entry is keyed by a slot that exists.
pub open spec fn keyed_by_slots(entries: Seq<(u8, u8)>) -> bool {
    forall|i: int| 0 <= i < entries.len() ==> valid_slot((#[trigger] entries[i]).0)
}

impl AlignmentModel {
    /// True when every slot that the alignment names exists.
    pub open spec fn valid(self) -> bool {
        match self {
            AlignmentModel::Horizontal { fore_back } => valid_pair(fore_back),
            AlignmentModel::Vertical { fore_back } => valid_pair(fore_back),
            AlignmentModel::Custom { entries } => keyed_by_slots(entries),
        }
    }
}

// ----- Horizontal -----

/// What is measured and cut into rows. With a pair: the filled art.
/// Without: the art without placeholders.
pub open spec fn horizontal_base(art: Seq<u8>, fore_back: Option<ForeBack>) -> Seq<u8> {
    match fore_back {
        Some(_) => filled(art),
        None => strip_tokens(art),
    }
}

/// One coloured row. With a pair: the line with the foreground
/// placeholders replaced by the neutral colour, then the background
/// placeholders by the row's colour, then the reset. Without: the row's
/// colour, the line, the reset.
pub open spec fn horizontal_row(
    line: Seq<u8>,
    color: Seq<u8>,
    fore_back: Option<ForeBack>,
    neutral: Seq<u8>,
    reset: Seq<u8>,
) -> Seq<u8> {
    match fore_back {
        Some((fore, back)) => replace_tokens(
            replace_tokens(line, slot_table(fore, neutral)),
            slot_table(back, color),
        ) + reset,
        None => color + line + reset,
    }
}

/// The rows of the horizontally coloured art, before the last sweep.
pub open spec fn horizontal_rows(
    lines: Seq<Seq<u8>>,
    colors: Seq<Seq<u8>>,
    fore_back: Option<ForeBack>,
    neutral: Seq<u8>,
    reset: Seq<u8>,
) -> Seq<Seq<u8>> {
    Seq::new(
        lines.len(),
        |i: int| horizontal_row(lines[i], colors[i], fore_back, neutral, reset),
    )
}

/// The horizontally coloured art: row `i` takes `colors[i]`. With a pair,
/// placeholders that are left at the end are swept out.
pub open spec fn horizontal(
    art: Seq<u8>,
    fore_back: Option<ForeBack>,
    neutral: Seq<u8>,
    reset: Seq<u8>,
    colors: Seq<Seq<u8>>,
) -> Seq<u8> {
    let lines = lines_of(horizontal_base(art, fore_back));
    let rows = text_of(horizontal_rows(lines, colors, fore_back, neutral, reset));
    match fore_back {
        Some(_) => strip_tokens(rows),
        None => rows,
    }
}

// ----- Vertical -----

/// Where the span behind occurrence `j` ends: at the next occurrence, or
/// at the end of the line.
pub open spec fn span_end(line: Seq<u8>, found: Seq<Occurrence>, j: int) -> int {
    if j + 1 < found.len() {
        found[j + 1].start as int
    } else {
        line.len() as int
    }
}

/// The text behind occurrence `j`, up to the next one.
pub open spec fn span_text(line: Seq<u8>, found: Seq<Occurrence>, j: int) -> Seq<u8> {
    line.subrange(found[j].end as int, span_end(line, found, j))
}

/// True when the span behind the occurrence takes the gradient: its slot
/// is the background slot and not the foreground slot.
pub open spec fn takes_gradient(o: Occurrence, fore: u8, back: u8) -> bool {
    o.slot != fore && o.slot == back
}

/// The number of spans that take the gradient among the first `upto`.
pub open spec fn gradient_spans(found: Seq<Occurrence>, upto: int, fore: u8, back: u8) -> nat
    decreases upto,
{
    if upto <= 0 {
        0
    } else if takes_gradient(found[upto - 1], fore, back) {
        gradient_spans(found, upto - 1, fore, back) + 1
    } else {
        gradient_spans(found, upto - 1, fore, back)
    }
}

/// The number of spans that take the gradient on the lines before line `i`.
pub open spec fn spans_before(lines: Seq<Seq<u8>>, i: int, fore: u8, back: u8) -> nat
    decreases i,
{
    if i <= 0 {
        0
    } else {
        let found = occurrences(lines[i - 1]);
        spans_before(lines, i - 1, fore, back) + gradient_spans(
            found,
            found.len() as int,
            fore,
            back,
        )
    }
}

/// The request for the span behind occurrence `j`. Placeholders take no
/// column: the span's columns are its byte offsets less the length of the
/// `j + 1` placeholders before it.
pub open spec fn slice_request(
    line: Seq<u8>,
    found: Seq<Occurrence>,
    j: int,
    width: nat,
) -> RequestModel {
    RequestModel::GradientSlice {
        spread: width,
        from: found[j].end - 5 * (j + 1),
        to: span_end(line, found, j) - 5 * (j + 1),
        text: span_text(line, found, j),
    }
}

/// The requests for the gradient spans among the first `upto` of a line.
pub open spec fn line_requests(
    line: Seq<u8>,
    found: Seq<Occurrence>,
    upto: int,
    fore: u8,
    back: u8,
    width: nat,
) -> Seq<RequestModel>
    decreases upto,
{
    if upto <= 0 {
        Seq::empty()
    } else {
        let before = line_requests(line, found, upto - 1, fore, back, width);
        if takes_gradient(found[upto - 1], fore, back) {
            before.push(slice_request(line, found, upto - 1, width))
        } else {
            before
        }
    }
}

/// The requests for the gradient spans of the first `upto` lines.
pub open spec fn slice_requests(
    lines: Seq<Seq<u8>>,
    upto: int,
    fore: u8,
    back: u8,
    width: nat,
) -> Seq<RequestModel>
    decreases upto,
{
    if upto <= 0 {
        Seq::empty()
    } else {
        let line = lines[upto - 1];
        let found = occurrences(line);
        slice_requests(lines, upto - 1, fore, back, width) + line_requests(
            line,
            found,
            found.len() as int,
            fore,
            back,
            width,
        )
    }
}

/// One rendered span: in the neutral colour and closed by the reset for
/// the foreground slot; the profile's text for the background slot; the
/// plain text for every other slot.
pub open spec fn rendered_span(
    line: Seq<u8>,
    found: Seq<Occurrence>,
    j: int,
    fore: u8,
    back: u8,
    neutral: Seq<u8>,
    reset: Seq<u8>,
    texts: Seq<Seq<u8>>,
) -> Seq<u8> {
    if found[j].slot == fore {
        neutral + span_text(line, found, j) + reset
    } else if found[j].slot == back {
        texts[gradient_spans(found, j, fore, back) as int]
    } else {
        span_text(line, found, j)
    }
}

/// The first `upto` spans of a line, rendered and put together. What
/// stands before the first placeholder is left out.
pub open spec fn rendered_line(
    line: Seq<u8>,
    found: Seq<Occurrence>,
    upto: int,
    fore: u8,
    back: u8,
    neutral: Seq<u8>,
    reset: Seq<u8>,
    texts: Seq<Seq<u8>>,
) -> Seq<u8>
    decreases upto,
{
    if upto <= 0 {
        Seq::empty()
    } else {
        rendered_line(line, found, upto - 1, fore, back, neutral, reset, texts) + rendered_span(
            line,
            found,
            upto - 1,
            fore,
            back,
            neutral,
            reset,
            texts,
        )
    }
}

/// The vertically coloured art with a pair: every line rendered span by
/// span, `texts` holding the coloured gradient spans of all lines in order.
pub open spec fn vertical(
    lines: Seq<Seq<u8>>,
    fore: u8,
    back: u8,
    neutral: Seq<u8>,
    reset: Seq<u8>,
    texts: Seq<Seq<u8>>,
) -> Seq<u8> {
    text_of(
        Seq::new(
            lines.len(),
            |i: int|
                {
                    let found = occurrences(lines[i]);
                    rendered_line(
                        lines[i],
                        found,
                        found.len() as int,
                        fore,
                        back,
                        neutral,
                        reset,
                        texts.skip(spans_before(lines, i, fore, back) as int),
                    )
                },
        ),
    )
}

/// The text of each answer behind the first; nothing for one that is no
/// text.
pub open spec fn answer_texts(answers: Seq<AnswerModel>, from: int) -> Seq<Seq<u8>> {
    Seq::new(
        (answers.len() - from) as nat,
        |i: int|
            match answers[from + i] {
                AnswerModel::Text { text } => text,
                _ => Seq::empty(),
            },
    )
}

// ----- Custom -----

/// The palette index that the entries give to `slot`: that of the last
/// entry for it.
pub open spec fn mapped(entries: Seq<(u8, u8)>, slot: u8) -> Option<u8>
    decreases entries.len(),
{
    if entries.len() == 0 {
        None
    } else if entries.last().0 == slot {
        Some(entries.last().1)
    } else {
        mapped(entries.drop_last(), slot)
    }
}

/// True when every entry names a colour that the palette has.
pub open spec fn within_palette(entries: Seq<(u8, u8)>, palette: Seq<Seq<u8>>) -> bool {
    forall|i: int| 0 <= i < entries.len() ==> (#[trigger] entries[i]).1 < palette.len()
}

/// The first entry at or behind `i` that names a colour outside a palette
/// of `size` colours, or the number of entries where there is none.
pub open spec fn outside_from(entries: Seq<(u8, u8)>, size: nat, i: int) -> int
    decreases entries.len() - i,
{
    if i < 0 || i >= entries.len() {
        entries.len() as int
    } else if entries[i].1 >= size {
        i
    } else {
        outside_from(entries, size, i + 1)
    }
}

/// The first entry that names a colour outside the palette.
pub open spec fn first_outside(entries: Seq<(u8, u8)>, size: nat) -> int {
    outside_from(entries, size, 0)
}

/// The failure over the first entry that names a colour outside the
/// palette: it names the entry's slot and index.
pub open spec fn outside_palette(entries: Seq<(u8, u8)>, size: nat) -> RecolorError {
    let entry = entries[first_outside(entries, size)];
    RecolorError::InvalidColorIndex { slot: entry.0, index: entry.1 }
}

/// The failure over the first line that cannot be filled: it names the
/// line.
pub open spec fn missing_state(art: Seq<u8>) -> RecolorError {
    RecolorError::MissingColorState { line: stuck_line(lines_of(art)) as usize }
}

/// The replacement of each slot under a custom mapping: the palette entry
/// for a mapped slot, nothing for the others.
pub open spec fn custom_table(entries: Seq<(u8, u8)>, palette: Seq<Seq<u8>>) -> Seq<Seq<u8>> {
    Seq::new(
        6,
        |i: int|
            match mapped(entries, (i + 1) as u8) {
                Some(index) => palette[index as int],
                None => Seq::empty(),
            },
    )
}

/// The art coloured by a custom mapping: every placeholder replaced by
/// its slot's entry of the table, and the reset behind every line.
pub open spec fn custom(
    art: Seq<u8>,
    entries: Seq<(u8, u8)>,
    palette: Seq<Seq<u8>>,
    reset: Seq<u8>,
) -> Seq<u8> {
    let lines = lines_of(replace_tokens(filled(art), custom_table(entries, palette)));
    text_of(Seq::new(lines.len(), |i: int| lines[i] + reset))
}

// ----- The two steps -----

/// What to ask the profile for, or why the art cannot be recoloured. The
/// art is measured before any colour is put in.
pub open spec fn plan(alignment: AlignmentModel, art: Seq<u8>) -> Result<
    Seq<RequestModel>,
    RecolorError,
> {
    if !alignment.valid() {
        Err(RecolorError::InvalidPlaceholder)
    } else {
        match alignment {
            AlignmentModel::Horizontal { fore_back } => {
                let base = horizontal_base(art, fore_back);
                if fore_back is Some && !fillable(lines_of(art)) {
                    Err(missing_state(art))
                } else if art_width(base) > 255 || art_height(base) > 255 {
                    Err(RecolorError::DimensionOverflow)
                } else {
                    Ok(seq![RequestModel::Spread { length: art_height(base) }])
                }
            },
            AlignmentModel::Vertical { fore_back: None } => {
                let lines = lines_of(strip_tokens(art));
                Ok(Seq::new(lines.len(), |i: int| RequestModel::Gradient { text: lines[i] }))
            },
            AlignmentModel::Vertical { fore_back: Some((fore, back)) } => {
                let base = filled(art);
                if !fillable(lines_of(art)) {
                    Err(missing_state(art))
                } else if art_width(base) > 255 || art_height(base) > 255 {
                    Err(RecolorError::DimensionOverflow)
                } else if art_width(base) == 0 {
                    Err(RecolorError::ProfileSpreadFailure)
                } else {
                    let lines = lines_of(base);
                    Ok(
                        seq![RequestModel::Spread { length: art_width(base) }] + slice_requests(
                            lines,
                            lines.len() as int,
                            fore,
                            back,
                            art_width(base),
                        ),
                    )
                }
            },
            AlignmentModel::Custom { entries } => {
                if !fillable(lines_of(art)) {
                    Err(missing_state(art))
                } else {
                    Ok(seq![RequestModel::Unique])
                }
            },
        }
    }
}

/// The coloured art that the answers give, where there is one fitting
/// answer for each request of [`plan`]. A custom mapping fails over an
/// empty palette, which is what an empty profile gives, before it asks
/// whether its entries are within the palette.
pub open spec fn assembled(
    alignment: AlignmentModel,
    art: Seq<u8>,
    escapes: EscapesModel,
    theme: TerminalTheme,
    answers: Seq<AnswerModel>,
) -> Result<Seq<u8>, RecolorError> {
    let neutral = escapes.neutral(theme);
    match alignment {
        AlignmentModel::Horizontal { fore_back } => Ok(
            horizontal(art, fore_back, neutral, escapes.reset, answers[0]->colors),
        ),
        AlignmentModel::Vertical { fore_back: None } => Ok(text_of(answer_texts(answers, 0))),
        AlignmentModel::Vertical { fore_back: Some((fore, back)) } => Ok(
            vertical(
                lines_of(filled(art)),
                fore,
                back,
                neutral,
                escapes.reset,
                answer_texts(answers, 1),
            ),
        ),
        AlignmentModel::Custom { entries } => {
            let palette = answers[0]->colors;
            if palette.len() == 0 {
                Err(RecolorError::ProfileSpreadFailure)
            } else if within_palette(entries, palette) {
                Ok(custom(art, entries, palette, escapes.reset))
            } else {
                Err(outside_palette(entries, palette.len()))
            }
        },
    }
}

/// The recoloured art, or why there is none: the failure of the plan;
/// `ProfileSpreadFailure` where the answers do not fit the plan's requests;
/// else what the answers assemble to.
pub open spec fn recolored(
    alignment: AlignmentModel,
    art: Seq<u8>,
    escapes: EscapesModel,
    theme: TerminalTheme,
    answers: Seq<AnswerModel>,
) -> Result<Seq<u8>, RecolorError> {
    match plan(alignment, art) {
        Err(e) => Err(e),
        Ok(requests) => if answers_fit(requests, answers) {
            assembled(alignment, art, escapes, theme, answers)
        } else {
            Err(RecolorError::ProfileSpreadFailure)
        },
    }
}

} // verus!
