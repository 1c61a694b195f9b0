use hyfetch::canvas::{ascii_size, fill_starting, normalize_ascii};
use hyfetch::error::RecolorError;
use hyfetch::placeholder::Scanner;
use hyfetch::text::split_lines;

fn scanner() -> Scanner {
    Scanner::new().expect("the six tokens build an automaton")
}

#[test]
fn ascii_size_ignores_placeholders() {
    let s = scanner();
    assert_eq!(ascii_size(&s, "${c1}abc\n${c2}de${c3}fgh"), Ok((5, 2)));
}

#[test]
fn ascii_size_of_empty_text_is_one_empty_line() {
    assert_eq!(ascii_size(&scanner(), ""), Ok((0, 1)));
}

#[test]
fn ascii_size_counts_a_trailing_break_as_a_line() {
    assert_eq!(ascii_size(&scanner(), "ab\n"), Ok((2, 2)));
}

#[test]
fn ascii_size_counts_grapheme_clusters() {
    let s = scanner();
    // e with a combining acute accent is two code points and one column.
    assert_eq!(ascii_size(&s, "e\u{301}x"), Ok((2, 1)));
    // a flag is two regional indicators and one column.
    assert_eq!(ascii_size(&s, "\u{1F1EB}\u{1F1F7}"), Ok((1, 1)));
    // three bytes, one column.
    assert_eq!(ascii_size(&s, "\u{2588}\u{2588}"), Ok((2, 1)));
}

#[test]
fn ascii_size_at_the_limit() {
    let s = scanner();
    let wide = "x".repeat(255);
    assert_eq!(ascii_size(&s, &wide), Ok((255, 1)));
    let high = "\n".repeat(254);
    assert_eq!(ascii_size(&s, &high), Ok((0, 255)));
}

#[test]
fn ascii_size_fails_over_the_limit() {
    let s = scanner();
    let wide = "x".repeat(256);
    assert_eq!(ascii_size(&s, &wide), Err(RecolorError::DimensionOverflow));
    let high = "\n".repeat(255);
    assert_eq!(ascii_size(&s, &high), Err(RecolorError::DimensionOverflow));
}

#[test]
fn ascii_size_of_stripped_art_is_not_wider() {
    let s = scanner();
    let art = "${c1}ab${c2}cd\n${c3}e";
    let (full, _) = ascii_size(&s, art).unwrap();
    let (stripped, _) = ascii_size(&s, &s.strip(art)).unwrap();
    assert!(stripped <= full);
    assert_eq!(stripped, 4);
}

#[test]
fn normalize_pads_to_the_widest_line() {
    let s = scanner();
    assert_eq!(normalize_ascii(&s, "abc\nd\n"), "abc\nd  \n   ");
}

#[test]
fn normalize_does_not_count_placeholders() {
    let s = scanner();
    assert_eq!(normalize_ascii(&s, "${c1}ab\n${c2}abcd"), "${c1}ab  \n${c2}abcd");
}

#[test]
fn normalize_makes_all_lines_as_wide_as_the_art() {
    let s = scanner();
    let art = "${c1}   /\\\n${c2}  /  \\\n /____\\";
    let (width, height) = ascii_size(&s, art).unwrap();
    let out = normalize_ascii(&s, art);
    let lines = split_lines(&out);
    assert_eq!(lines.len(), height as usize);
    for line in lines {
        assert_eq!(ascii_size(&s, line), Ok((width, 1)));
    }
}

#[test]
fn normalize_is_total_beyond_the_size_limit() {
    let s = scanner();
    let wide = "x".repeat(300);
    let art = format!("{wide}\ny");
    let out = normalize_ascii(&s, &art);
    assert_eq!(out, format!("{wide}\ny{}", " ".repeat(299)));
}

#[test]
fn fill_starting_carries_the_last_placeholder_forward() {
    let s = scanner();
    assert_eq!(fill_starting(&s, "${c1}...\n..."), Ok("${c1}...\n${c1}...".to_string()));
}

#[test]
fn fill_starting_takes_the_last_of_several() {
    let s = scanner();
    assert_eq!(
        fill_starting(&s, "${c1}a${c4}b\nc\n${c2}d\ne"),
        Ok("${c1}a${c4}b\n${c4}c\n${c2}d\n${c2}e".to_string())
    );
}

#[test]
fn fill_starting_accepts_spaces_before_the_placeholder() {
    let s = scanner();
    assert_eq!(fill_starting(&s, "   ${c3}x\n y"), Ok("   ${c3}x\n${c3} y".to_string()));
}

#[test]
fn fill_starting_fills_a_line_whose_placeholder_comes_late() {
    let s = scanner();
    assert_eq!(
        fill_starting(&s, "${c1}a\nb${c2}c\nd"),
        Ok("${c1}a\n${c1}b${c2}c\n${c2}d".to_string())
    );
}

#[test]
fn fill_starting_does_not_take_a_tab_for_a_space() {
    let s = scanner();
    assert_eq!(fill_starting(&s, "${c5}a\n\t${c2}b"), Ok("${c5}a\n${c5}\t${c2}b".to_string()));
}

#[test]
fn fill_starting_fails_without_a_state_to_carry() {
    let s = scanner();
    let first = Err(RecolorError::MissingColorState { line: 0 });
    assert_eq!(fill_starting(&s, "abc"), first);
    assert_eq!(fill_starting(&s, ""), first);
    assert_eq!(fill_starting(&s, "x${c1}\n${c2}"), first);
    assert_eq!(fill_starting(&s, "\n\n${c2}"), first);
}

#[test]
fn fill_starting_makes_every_line_lead_with_a_placeholder() {
    let s = scanner();
    let out = fill_starting(&s, "  ${c2}a\nb\n\n c${c1}\nd").unwrap();
    for line in split_lines(&out) {
        let found = s.find(line);
        assert!(!found.is_empty());
        assert!(line[..found[0].start].bytes().all(|b| b == b' '));
    }
}
