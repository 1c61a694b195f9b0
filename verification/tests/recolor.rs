use hyfetch::alignment::{ColorAlignment, Escapes, ProfileAnswer, ProfileRequest, TerminalTheme};
use hyfetch::error::RecolorError;
use hyfetch::placeholder::Scanner;
use indexmap::IndexMap;

fn scanner() -> Scanner {
    Scanner::new().expect("the six tokens build an automaton")
}

fn escapes() -> Escapes {
    Escapes { reset: "<0>".to_string(), light: "<W>".to_string(), dark: "<K>".to_string() }
}

/// A stand-in for the gradient profile: colours are written as tags.
fn spread(colors: &[&str], length: usize) -> Option<Vec<String>> {
    if length == 0 || colors.is_empty() {
        return None;
    }
    Some((0..length).map(|i| colors[i * colors.len() / length].to_string()).collect())
}

fn unique(colors: &[&str]) -> Vec<String> {
    let mut seen: Vec<String> = Vec::new();
    for c in colors {
        if !seen.iter().any(|s| s == c) {
            seen.push(c.to_string());
        }
    }
    seen
}

fn gradient(colors: &[String], text: &str) -> Option<String> {
    let chars: Vec<char> = text.chars().collect();
    let names: Vec<&str> = colors.iter().map(|c| c.as_str()).collect();
    let spread = spread(&names, chars.len())?;
    let mut out = String::new();
    for (i, c) in chars.iter().enumerate() {
        out.push_str(&spread[i]);
        out.push(*c);
    }
    out.push_str("<0>");
    Some(out)
}

fn answer(colors: &[&str], request: &ProfileRequest) -> ProfileAnswer {
    let owned: Vec<String> = colors.iter().map(|c| c.to_string()).collect();
    match request {
        ProfileRequest::Spread { length } => match spread(colors, *length) {
            Some(colors) => ProfileAnswer::Colors { colors },
            None => ProfileAnswer::Failed,
        },
        ProfileRequest::Unique => ProfileAnswer::Colors { colors: unique(colors) },
        ProfileRequest::Gradient { text } => match gradient(&owned, text) {
            Some(text) => ProfileAnswer::Text { text },
            None => ProfileAnswer::Failed,
        },
        ProfileRequest::GradientSlice { spread: length, from, to, text } => {
            match spread(colors, *length) {
                Some(all) if *to <= all.len() => match gradient(&all[*from..*to], text) {
                    Some(text) => ProfileAnswer::Text { text },
                    None => ProfileAnswer::Failed,
                },
                _ => ProfileAnswer::Failed,
            }
        },
    }
}

fn recolor(
    alignment: &ColorAlignment,
    art: &str,
    colors: &[&str],
    theme: TerminalTheme,
) -> Result<String, RecolorError> {
    let s = scanner();
    let e = escapes();
    let requests = alignment.requests(&s, art)?;
    let answers: Vec<ProfileAnswer> = requests.iter().map(|r| answer(colors, r)).collect();
    alignment.recolor_ascii(&s, art, &e, theme, &answers)
}

fn horizontal(fore_back: Option<(u8, u8)>) -> ColorAlignment {
    ColorAlignment::Horizontal { fore_back }
}

fn vertical(fore_back: Option<(u8, u8)>) -> ColorAlignment {
    ColorAlignment::Vertical { fore_back }
}

fn custom(entries: &[(u8, u8)]) -> ColorAlignment {
    let mut colors = IndexMap::new();
    for (slot, index) in entries {
        colors.insert(*slot, *index);
    }
    ColorAlignment::Custom { colors }
}

const RGB: [&str; 3] = ["<R>", "<G>", "<B>"];

#[test]
fn horizontal_without_pair_colours_each_row() {
    let out = recolor(&horizontal(None), "a\nb\nc", &RGB, TerminalTheme::Dark);
    assert_eq!(out, Ok("<R>a<0>\n<G>b<0>\n<B>c<0>".to_string()));
}

#[test]
fn horizontal_without_pair_strips_placeholders_first() {
    let art = "${c1}a${c2}a\n${c3}b";
    let out = recolor(&horizontal(None), art, &["<R>", "<G>"], TerminalTheme::Dark);
    assert_eq!(out, Ok("<R>aa<0>\n<G>b<0>".to_string()));
}

#[test]
fn horizontal_without_pair_asks_for_one_colour_per_row() {
    let requests = horizontal(None).requests(&scanner(), "a\nb\nc");
    assert_eq!(requests, Ok(vec![ProfileRequest::Spread { length: 3 }]));
}

#[test]
fn horizontal_with_pair_keeps_the_outline_neutral() {
    let art = "${c1}##${c2}..\n${c2}--${c1}##${c3}x";
    let out = recolor(&horizontal(Some((1, 2))), art, &["<A>", "<B>"], TerminalTheme::Dark);
    assert_eq!(out, Ok("<W>##<A>..<0>\n<B>--<W>##x<0>".to_string()));
}

#[test]
fn horizontal_with_pair_fills_the_starting_placeholder() {
    let art = "${c2}ab\ncd";
    let out = recolor(&horizontal(Some((1, 2))), art, &["<A>", "<B>"], TerminalTheme::Dark);
    assert_eq!(out, Ok("<A>ab<0>\n<B>cd<0>".to_string()));
}

#[test]
fn horizontal_with_pair_takes_the_dark_neutral_on_a_light_theme() {
    let out = recolor(&horizontal(Some((1, 2))), "${c1}x", &RGB, TerminalTheme::Light);
    assert_eq!(out, Ok("<K>x<0>".to_string()));
}

#[test]
fn horizontal_with_equal_slots_draws_all_neutral() {
    let out = recolor(&horizontal(Some((1, 1))), "${c1}x\n${c1}y", &RGB, TerminalTheme::Dark);
    assert_eq!(out, Ok("<W>x<0>\n<W>y<0>".to_string()));
}

#[test]
fn vertical_with_pair_example() {
    let s = scanner();
    let e = escapes();
    let alignment = vertical(Some((1, 2)));
    let art = "${c1}AA${c2}BB";
    let requests = alignment.requests(&s, art).unwrap();
    assert_eq!(
        requests,
        vec![
            ProfileRequest::Spread { length: 4 },
            ProfileRequest::GradientSlice { spread: 4, from: 2, to: 4, text: "BB".to_string() },
        ]
    );
    let answers: Vec<ProfileAnswer> = requests.iter().map(|r| answer(&["<R>", "<G>"], r)).collect();
    assert_eq!(
        answers[0],
        ProfileAnswer::Colors {
            colors: vec!["<R>".to_string(), "<R>".to_string(), "<G>".to_string(), "<G>".to_string()]
        }
    );
    let out = alignment.recolor_ascii(&s, art, &e, TerminalTheme::Dark, &answers);
    assert_eq!(out, Ok("<W>AA<0><G>B<G>B<0>".to_string()));
}

#[test]
fn vertical_with_pair_numbers_the_spans_over_all_lines() {
    let s = scanner();
    let e = escapes();
    let alignment = vertical(Some((1, 2)));
    let art = "${c2}ab${c1}cd${c2}e\n${c3}xy${c2}z\nw";
    let requests = alignment.requests(&s, art).unwrap();
    assert_eq!(
        requests,
        vec![
            ProfileRequest::Spread { length: 5 },
            ProfileRequest::GradientSlice { spread: 5, from: 0, to: 2, text: "ab".to_string() },
            ProfileRequest::GradientSlice { spread: 5, from: 4, to: 5, text: "e".to_string() },
            ProfileRequest::GradientSlice { spread: 5, from: 2, to: 3, text: "z".to_string() },
            ProfileRequest::GradientSlice { spread: 5, from: 0, to: 1, text: "w".to_string() },
        ]
    );
    let answers = vec![
        ProfileAnswer::Colors { colors: vec![String::new(); 5] },
        ProfileAnswer::Text { text: "[1]".to_string() },
        ProfileAnswer::Text { text: "[2]".to_string() },
        ProfileAnswer::Text { text: "[3]".to_string() },
        ProfileAnswer::Text { text: "[4]".to_string() },
    ];
    let out = alignment.recolor_ascii(&s, art, &e, TerminalTheme::Light, &answers);
    assert_eq!(out, Ok("[1]<K>cd<0>[2]\nxy[3]\n[4]".to_string()));
}

#[test]
fn vertical_with_pair_drops_what_stands_before_the_first_placeholder() {
    let out = recolor(&vertical(Some((1, 2))), "  ${c1}ab", &RGB, TerminalTheme::Dark);
    assert_eq!(out, Ok("<W>ab<0>".to_string()));
}

#[test]
fn vertical_with_pair_counts_columns_in_bytes() {
    let s = scanner();
    let requests = vertical(Some((1, 2)))
        .requests(&s, "${c1}\u{e9}${c2}x")
        .unwrap();
    assert_eq!(
        requests,
        vec![
            ProfileRequest::Spread { length: 2 },
            ProfileRequest::GradientSlice { spread: 2, from: 2, to: 3, text: "x".to_string() },
        ]
    );
}

#[test]
fn vertical_with_equal_slots_draws_all_neutral() {
    let out = recolor(&vertical(Some((2, 2))), "${c2}ab", &RGB, TerminalTheme::Dark);
    assert_eq!(out, Ok("<W>ab<0>".to_string()));
}

#[test]
fn vertical_with_pair_fails_on_an_art_without_columns() {
    let out = recolor(&vertical(Some((1, 2))), "${c1}\n${c2}", &RGB, TerminalTheme::Dark);
    assert_eq!(out, Err(RecolorError::ProfileSpreadFailure));
}

#[test]
fn vertical_without_pair_hands_each_line_to_the_profile() {
    let s = scanner();
    let e = escapes();
    let alignment = vertical(None);
    let art = "${c1}ab\n${c2}c";
    let requests = alignment.requests(&s, art).unwrap();
    assert_eq!(
        requests,
        vec![
            ProfileRequest::Gradient { text: "ab".to_string() },
            ProfileRequest::Gradient { text: "c".to_string() },
        ]
    );
    let out = recolor(&alignment, art, &["<R>", "<G>"], TerminalTheme::Dark);
    assert_eq!(out, Ok("<R>a<G>b<0>\n<R>c<0>".to_string()));
}

#[test]
fn custom_replaces_mapped_slots_and_removes_the_others() {
    let art = "${c1}a${c2}b${c3}c${c4}d${c5}e${c6}f";
    let out = recolor(&custom(&[(1, 0), (3, 2)]), art, &RGB, TerminalTheme::Dark);
    let text = out.unwrap();
    assert_eq!(text, "<R>ab<B>cdef<0>");
    assert!(!text.contains("${c"));
}

#[test]
fn custom_uses_the_palette_without_duplicates() {
    let art = "${c1}a${c2}b";
    let out = recolor(&custom(&[(1, 1), (2, 0)]), art, &["<R>", "<R>", "<G>"], TerminalTheme::Dark);
    assert_eq!(out, Ok("<G>a<R>b<0>".to_string()));
}

#[test]
fn custom_resets_every_line() {
    let out = recolor(&custom(&[(2, 1)]), "${c2}a\nb\n${c1}c", &RGB, TerminalTheme::Dark);
    assert_eq!(out, Ok("<G>a<0>\n<G>b<0>\nc<0>".to_string()));
}

#[test]
fn custom_with_an_empty_mapping_strips() {
    let out = recolor(&custom(&[]), "${c1}a${c2}b", &RGB, TerminalTheme::Dark);
    assert_eq!(out, Ok("ab<0>".to_string()));
}

#[test]
fn custom_lets_two_slots_share_a_colour() {
    let out = recolor(&custom(&[(1, 2), (6, 2)]), "${c1}a${c6}b", &RGB, TerminalTheme::Dark);
    assert_eq!(out, Ok("<B>a<B>b<0>".to_string()));
}

#[test]
fn custom_maps_the_first_and_the_last_slot_to_the_right_entries() {
    let out = recolor(&custom(&[(1, 0), (6, 2)]), "${c1}a${c5}b${c6}c", &RGB, TerminalTheme::Dark);
    assert_eq!(out, Ok("<R>ab<B>c<0>".to_string()));
}

#[test]
fn custom_fails_on_an_index_outside_the_palette() {
    let out = recolor(&custom(&[(1, 3)]), "${c1}a", &RGB, TerminalTheme::Dark);
    assert_eq!(out, Err(RecolorError::InvalidColorIndex { slot: 1, index: 3 }));
    let out = recolor(&custom(&[(4, 1)]), "${c1}a", &["<R>"], TerminalTheme::Dark);
    assert_eq!(out, Err(RecolorError::InvalidColorIndex { slot: 4, index: 1 }));
}

#[test]
fn custom_names_the_first_entry_outside_the_palette() {
    let alignment = custom(&[(1, 0), (2, 5), (3, 9), (4, 1)]);
    let out = recolor(&alignment, "${c1}a", &RGB, TerminalTheme::Dark);
    assert_eq!(out, Err(RecolorError::InvalidColorIndex { slot: 2, index: 5 }));
}

#[test]
fn custom_fails_over_an_empty_profile_before_it_looks_at_the_mapping() {
    for alignment in [custom(&[]), custom(&[(1, 0)]), custom(&[(1, 200)])] {
        let out = recolor(&alignment, "${c1}a", &[], TerminalTheme::Dark);
        assert_eq!(out, Err(RecolorError::ProfileSpreadFailure));
    }
}

#[test]
fn an_unknown_slot_is_refused() {
    let s = scanner();
    let e = escapes();
    for alignment in [
        horizontal(Some((0, 1))),
        horizontal(Some((1, 7))),
        vertical(Some((7, 2))),
        custom(&[(1, 0), (9, 0)]),
    ] {
        assert!(!alignment.is_valid());
        assert_eq!(
            alignment.requests(&s, "${c1}a"),
            Err(RecolorError::InvalidPlaceholder)
        );
        assert_eq!(
            alignment.recolor_ascii(&s, "${c1}a", &e, TerminalTheme::Dark, &Vec::new()),
            Err(RecolorError::InvalidPlaceholder)
        );
    }
    assert!(horizontal(Some((6, 1))).is_valid());
    assert!(vertical(None).is_valid());
    assert!(custom(&[(6, 200)]).is_valid());
}

#[test]
fn a_first_line_without_placeholder_is_refused_where_state_is_carried() {
    for alignment in [horizontal(Some((1, 2))), vertical(Some((1, 2))), custom(&[(1, 0)])] {
        assert_eq!(
            recolor(&alignment, "ab\n${c1}cd", &RGB, TerminalTheme::Dark),
            Err(RecolorError::MissingColorState { line: 0 })
        );
    }
    assert!(recolor(&horizontal(None), "ab\n${c1}cd", &RGB, TerminalTheme::Dark).is_ok());
    assert!(recolor(&vertical(None), "ab\n${c1}cd", &RGB, TerminalTheme::Dark).is_ok());
}

#[test]
fn an_empty_profile_cannot_be_spread() {
    let art = "${c1}ab\n${c2}cd";
    for alignment in [
        horizontal(None),
        horizontal(Some((1, 2))),
        vertical(None),
        vertical(Some((1, 2))),
        custom(&[]),
        custom(&[(1, 0), (3, 2)]),
    ] {
        assert_eq!(
            recolor(&alignment, art, &[], TerminalTheme::Dark),
            Err(RecolorError::ProfileSpreadFailure)
        );
    }
}

#[test]
fn answers_that_do_not_fit_are_refused() {
    let s = scanner();
    let e = escapes();
    let alignment = horizontal(None);
    let art = "a\nb";
    let two = ProfileAnswer::Colors { colors: vec!["<R>".to_string(), "<G>".to_string()] };
    let one = ProfileAnswer::Colors { colors: vec!["<R>".to_string()] };
    let text = ProfileAnswer::Text { text: "x".to_string() };
    let run = |answers: Vec<ProfileAnswer>| {
        alignment.recolor_ascii(&s, art, &e, TerminalTheme::Dark, &answers)
    };
    assert_eq!(run(vec![two.clone()]), Ok("<R>a<0>\n<G>b<0>".to_string()));
    assert_eq!(run(vec![]), Err(RecolorError::ProfileSpreadFailure));
    assert_eq!(run(vec![one]), Err(RecolorError::ProfileSpreadFailure));
    assert_eq!(run(vec![text]), Err(RecolorError::ProfileSpreadFailure));
    assert_eq!(run(vec![ProfileAnswer::Failed]), Err(RecolorError::ProfileSpreadFailure));
    assert_eq!(run(vec![two.clone(), two]), Err(RecolorError::ProfileSpreadFailure));
}

#[test]
fn an_art_over_the_size_limit_is_refused() {
    let art = "x\n".repeat(255);
    assert_eq!(
        recolor(&horizontal(None), &art, &RGB, TerminalTheme::Dark),
        Err(RecolorError::DimensionOverflow)
    );
    let wide = format!("${{c1}}{}", "x".repeat(256));
    assert_eq!(
        recolor(&vertical(Some((1, 2))), &wide, &RGB, TerminalTheme::Dark),
        Err(RecolorError::DimensionOverflow)
    );
}

#[test]
fn horizontal_with_pair_measures_the_art_before_the_colours_go_in() {
    // 90 outline placeholders take no column, though the neutral colour
    // that replaces each of them is three characters long.
    let art = "${c1}".repeat(90);
    assert_eq!(
        recolor(&horizontal(Some((1, 2))), &art, &RGB, TerminalTheme::Dark),
        Ok(format!("{}<0>", "<W>".repeat(90)))
    );
    assert_eq!(
        recolor(&horizontal(Some((1, 2))), &art, &[], TerminalTheme::Dark),
        Err(RecolorError::ProfileSpreadFailure)
    );
    let art = format!("${{c1}}{}${{c2}}{}", "#".repeat(200), ".".repeat(55));
    assert_eq!(
        recolor(&horizontal(Some((1, 2))), &art, &RGB, TerminalTheme::Dark),
        Ok(format!("<W>{}<R>{}<0>", "#".repeat(200), ".".repeat(55)))
    );
    let art = format!("${{c1}}{}${{c2}}{}", "#".repeat(200), ".".repeat(56));
    assert_eq!(
        recolor(&horizontal(Some((1, 2))), &art, &RGB, TerminalTheme::Dark),
        Err(RecolorError::DimensionOverflow)
    );
}

#[test]
fn horizontal_with_pair_asks_for_the_rows_of_the_art() {
    let requests = horizontal(Some((1, 2))).requests(&scanner(), "${c1}a\nb\n${c2}c");
    assert_eq!(requests, Ok(vec![ProfileRequest::Spread { length: 3 }]));
}
